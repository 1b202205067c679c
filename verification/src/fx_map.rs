//! The hash maps of the engine: `rustc_hash::FxHashMap` keyed by `u64`.
//!
//! `FxHashMap<K, V>` is std's `HashMap<K, V, FxBuildHasher>`. vstd models
//! std's `HashMap` by a `Map` view but states its method contracts only for
//! hashers known to build identical hashers; the wrappers below state them for
//! `FxBuildHasher`, which builds `FxHasher::default()` every time, so that equal
//! keys always hash alike.
use vstd::prelude::*;

use rustc_hash::{FxBuildHasher, FxHashMap};

verus! {

#[verifier::external_type_specification]
#[verifier::external_body]
pub struct ExFxBuildHasher(FxBuildHasher);

/// `HashMap::get`: the value stored under `k`, if any.
#[verifier::external_body]
pub(crate) fn fx_get<V>(m: &FxHashMap<u64, V>, k: u64) -> (r: Option<&V>)
    ensures
        match r {
            Some(v) => m@.contains_key(k) && *v == m@[k],
            None => !m@.contains_key(k),
        },
{
    m.get(&k)
}

/// `HashMap::contains_key`.
#[verifier::external_body]
pub(crate) fn fx_contains_key<V>(m: &FxHashMap<u64, V>, k: u64) -> (r: bool)
    ensures
        r == m@.contains_key(k),
{
    m.contains_key(&k)
}

/// `HashMap::insert`: stores `v` under `k`; the value it replaces is dropped.
#[verifier::external_body]
pub(crate) fn fx_insert<V>(m: &mut FxHashMap<u64, V>, k: u64, v: V)
    ensures
        final(m)@ == old(m)@.insert(k, v),
{
    m.insert(k, v);
}

/// `HashMap::remove`: takes out the value stored under `k`, if any.
#[verifier::external_body]
pub(crate) fn fx_remove<V>(m: &mut FxHashMap<u64, V>, k: u64) -> (r: Option<V>)
    ensures
        final(m)@ == old(m)@.remove(k),
        match r {
            Some(v) => old(m)@.contains_key(k) && v == old(m)@[k],
            None => !old(m)@.contains_key(k),
        },
{
    m.remove(&k)
}

} // verus!

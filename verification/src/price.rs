use vstd::prelude::*;

verus! {

/// A limit price, in ticks.
#[derive(Clone, Copy, Debug, PartialEq, Eq, Structural)]
pub struct Price(pub u64);

} // verus!

//! One side of a book: a queue, a running total and a bitmap bit per price
//! level.
use vstd::prelude::*;

use crate::order_queue::OrderQueue;
use crate::price::Price;

verus! {

/// The number of price levels on each side of a book.
pub const MAX_LEVEL: usize = 1001;

const CHUNK: usize = 64;

const B: usize = 16;

/// The price of level `0`.
pub const PRICE_OFFSET: u64 = 10000;

/// Bit `j` of word `w`.
pub open spec fn bit_of(w: u64, j: int) -> bool {
    (w >> (j as u64)) & 1u64 == 1u64
}

/// The level that `price` falls on, if it falls on one.
pub open spec fn level_of_price(price: Price) -> Option<usize> {
    if PRICE_OFFSET <= price.0 && price.0 - PRICE_OFFSET < MAX_LEVEL {
        Some((price.0 - PRICE_OFFSET) as usize)
    } else {
        None
    }
}

/// The price of level `index`.
pub open spec fn price_of_level(index: int) -> Price {
    Price((index + PRICE_OFFSET) as u64)
}

proof fn lemma_bit_or(x: u64, o: u64, j: u64)
    requires
        o < 64,
        j < 64,
    ensures
        ((x | (1u64 << o)) >> j) & 1u64 == 1u64 <==> ((x >> j) & 1u64 == 1u64 || j == o),
{
    assert(((x | (1u64 << o)) >> j) & 1u64 == 1u64 <==> ((x >> j) & 1u64 == 1u64 || j == o))
        by (bit_vector)
        requires
            o < 64,
            j < 64,
    ;
}

proof fn lemma_bit_clear(x: u64, o: u64, j: u64)
    requires
        o < 64,
        j < 64,
    ensures
        ((x & !(1u64 << o)) >> j) & 1u64 == 1u64 <==> ((x >> j) & 1u64 == 1u64 && j != o),
{
    assert(((x & !(1u64 << o)) >> j) & 1u64 == 1u64 <==> ((x >> j) & 1u64 == 1u64 && j != o))
        by (bit_vector)
        requires
            o < 64,
            j < 64,
    ;
}

proof fn lemma_bit_low_mask(x: u64, o: u64, j: u64)
    requires
        o < 64,
        j < 64,
    ensures
        ((x & (!0u64 << o)) >> j) & 1u64 == 1u64 <==> ((x >> j) & 1u64 == 1u64 && j >= o),
{
    assert(((x & (!0u64 << o)) >> j) & 1u64 == 1u64 <==> ((x >> j) & 1u64 == 1u64 && j >= o))
        by (bit_vector)
        requires
            o < 64,
            j < 64,
    ;
}

proof fn lemma_bit_high_mask(x: u64, o: u64, j: u64)
    requires
        o < 64,
        j < 64,
    ensures
        ((x & (!0u64 >> (63u64 - o) as u64)) >> j) & 1u64 == 1u64 <==> ((x >> j) & 1u64 == 1u64 && j
            <= o),
{
    assert(((x & (!0u64 >> (63u64 - o) as u64)) >> j) & 1u64 == 1u64 <==> ((x >> j) & 1u64 == 1u64
        && j <= o)) by (bit_vector)
        requires
            o < 64,
            j < 64,
    ;
}

proof fn lemma_zero_word_bits(j: u64)
    requires
        j < 64,
    ensures
        !bit_of(0u64, j as int),
{
    assert((0u64 >> j) & 1u64 == 0u64) by (bit_vector);
}

proof fn lemma_and_one(x: u64)
    ensures
        x & 1u64 != 0u64 ==> x & 1u64 == 1u64,
{
    assert(x & 1u64 != 0u64 ==> x & 1u64 == 1u64) by (bit_vector);
}

proof fn lemma_div_mod_64(c: int, j: int)
    requires
        0 <= c,
        0 <= j < 64,
    ensures
        (c * 64 + j) / 64 == c,
        (c * 64 + j) % 64 == j,
{
    assert((c * 64 + j) / 64 == c) by (nonlinear_arith)
        requires
            0 <= c,
            0 <= j < 64,
    ;
    assert((c * 64 + j) % 64 == j) by (nonlinear_arith)
        requires
            0 <= c,
            0 <= j < 64,
    ;
}

proof fn lemma_split_64(i: int)
    requires
        0 <= i,
    ensures
        i == (i / 64) * 64 + i % 64,
        0 <= i % 64 < 64,
        0 <= i / 64,
{
    assert(i == (i / 64) * 64 + i % 64) by (nonlinear_arith)
        requires
            0 <= i,
    ;
}

/// One side of a book: a FIFO queue and a resting total per price level, and
/// a bitmap of the levels whose total is not zero.
pub struct PriceLevel {
    pub levels: [OrderQueue; MAX_LEVEL],
    pub bitmap: [u64; 16],
    pub totals: [u64; MAX_LEVEL],
}

impl PriceLevel {
    /// Whether the bitmap marks level `i`.
    pub closed spec fn bit_set(&self, i: int) -> bool {
        bit_of(self.bitmap@[i / 64], i % 64)
    }

    /// The bitmap marks exactly the levels whose total is not zero.
    pub closed spec fn bits_wf(&self) -> bool {
        &&& forall|i: int| 0 <= i < MAX_LEVEL ==> (#[trigger] self.bit_set(i) <==> self.totals@[i] > 0)
        &&& forall|i: int| MAX_LEVEL <= i < 1024 ==> !#[trigger] self.bit_set(i)
    }

    /// The bitmap invariant depends on the bitmap and the totals only.
    pub proof fn lemma_bits_frame(&self, other: &PriceLevel)
        requires
            self.bits_wf(),
            self.bitmap == other.bitmap,
            self.totals == other.totals,
        ensures
            other.bits_wf(),
    {
        assert forall|i: int| 0 <= i < 1024 implies #[trigger] other.bit_set(i) == self.bit_set(i) by {}
    }

    /// No level in `[a, b)` holds any quantity.
    pub open spec fn empty_between(&self, a: int, b: int) -> bool {
        forall|i: int| a <= i < b && 0 <= i < MAX_LEVEL ==> #[trigger] self.totals@[i] == 0
    }

    /// A side with every level empty.
    pub fn new() -> (pl: Self)
        ensures
            pl.bits_wf(),
            forall|i: int| 0 <= i < MAX_LEVEL ==> #[trigger] pl.totals@[i] == 0,
            forall|i: int| 0 <= i < MAX_LEVEL ==> (#[trigger] pl.levels@[i]).members@ == Seq::<usize>::empty()
                && pl.levels@[i].head is None && pl.levels@[i].tail is None,
    {
        let q = OrderQueue::new();
        let pl = Self { levels: [q; MAX_LEVEL], bitmap: [0u64; B], totals: [0u64; MAX_LEVEL] };
        proof {
            assert forall|i: int| 0 <= i < 1024 implies !#[trigger] pl.bit_set(i) by {
                lemma_split_64(i);
                assert(pl.bitmap@[i / 64] == 0u64);
                lemma_zero_word_bits((i % 64) as u64);
            }
        }
        pl
    }

    /// Adds `delta` to the total of level `index`.
    pub fn add_qty_at(&mut self, index: usize, delta: u64)
        requires
            old(self).bits_wf(),
            index < MAX_LEVEL,
            old(self).totals@[index as int] + delta <= u64::MAX,
        ensures
            final(self).bits_wf(),
            final(self).totals@ == old(self).totals@.update(
                index as int,
                (old(self).totals@[index as int] + delta) as u64,
            ),
            final(self).levels == old(self).levels,
    {
        self.totals[index] = self.totals[index] + delta;
        proof {
            assert forall|i: int| 0 <= i < MAX_LEVEL && i != index implies (#[trigger] self.bit_set(i)
                <==> self.totals@[i] > 0) by {
                assert(self.bit_set(i) == old(self).bit_set(i));
            }
            assert forall|i: int| MAX_LEVEL <= i < 1024 implies !#[trigger] self.bit_set(i) by {
                assert(self.bit_set(i) == old(self).bit_set(i));
            }
        }
        if self.totals[index] > 0 {
            self.set_bit(index);
        } else {
            self.totals[index] = 0;
            proof {
                assert forall|i: int| 0 <= i < MAX_LEVEL && i != index implies (#[trigger] self.bit_set(i)
                    <==> self.totals@[i] > 0) by {
                    assert(self.bit_set(i) == old(self).bit_set(i));
                }
                assert forall|i: int| MAX_LEVEL <= i < 1024 implies !#[trigger] self.bit_set(i) by {
                    assert(self.bit_set(i) == old(self).bit_set(i));
                }
            }
            self.clear_bit(index);
        }
    }

    /// Takes `delta` from the total of level `index`, down to zero at most.
    pub fn sub_qty_at(&mut self, index: usize, delta: u64)
        requires
            old(self).bits_wf(),
            index < MAX_LEVEL,
        ensures
            final(self).bits_wf(),
            final(self).totals@ == old(self).totals@.update(
                index as int,
                if old(self).totals@[index as int] > delta {
                    (old(self).totals@[index as int] - delta) as u64
                } else {
                    0u64
                },
            ),
            final(self).levels == old(self).levels,
    {
        if self.totals[index] > delta {
            self.totals[index] = self.totals[index] - delta;
            proof {
                assert forall|i: int| 0 <= i < MAX_LEVEL implies (#[trigger] self.bit_set(i)
                    <==> self.totals@[i] > 0) by {
                    assert(self.bit_set(i) == old(self).bit_set(i));
                }
                assert forall|i: int| MAX_LEVEL <= i < 1024 implies !#[trigger] self.bit_set(i) by {
                    assert(self.bit_set(i) == old(self).bit_set(i));
                }
            }
        } else {
            self.totals[index] = 0;
            proof {
                assert forall|i: int| 0 <= i < MAX_LEVEL && i != index implies (#[trigger] self.bit_set(i)
                    <==> self.totals@[i] > 0) by {
                    assert(self.bit_set(i) == old(self).bit_set(i));
                }
                assert forall|i: int| MAX_LEVEL <= i < 1024 implies !#[trigger] self.bit_set(i) by {
                    assert(self.bit_set(i) == old(self).bit_set(i));
                }
            }
            self.clear_bit(index);
        }
    }

    /// The lowest level at or above `start` whose total is not zero.
    pub fn find_next_non_empty_from(&self, start: usize) -> (r: Option<usize>)
        requires
            self.bits_wf(),
        ensures
            match r {
                None => self.empty_between(start as int, MAX_LEVEL as int),
                Some(j) => start <= j < MAX_LEVEL && self.totals@[j as int] > 0 && self.empty_between(
                    start as int,
                    j as int,
                ),
            },
    {
        broadcast use vstd::std_specs::bits::axiom_u64_trailing_zeros;

        if start >= MAX_LEVEL {
            return None;
        }
        let chunk = start / CHUNK;
        let offset = start % CHUNK;

        let w = self.bitmap[chunk] & (!0u64 << (offset as u64));
        if w != 0 {
            let tz = w.trailing_zeros();
            let j = chunk * CHUNK + tz as usize;
            proof {
                let x = self.bitmap@[chunk as int];
                lemma_bit_low_mask(x, offset as u64, tz as u64);
                lemma_div_mod_64(chunk as int, tz as int);
                lemma_split_64(start as int);
                assert(self.bit_set(j as int));
                assert forall|i: int| start <= i < j && 0 <= i < MAX_LEVEL implies #[trigger] self.totals@[i]
                    == 0 by {
                    let b = i - chunk * 64;
                    lemma_div_mod_64(chunk as int, b);
                    lemma_bit_low_mask(x, offset as u64, b as u64);
                    assert(!bit_of(w, b));
                    assert(!self.bit_set(i));
                }
            }
            return Some(j);
        }
        proof {
            let x = self.bitmap@[chunk as int];
            lemma_split_64(start as int);
            assert forall|i: int| start <= i < (chunk + 1) * 64 && 0 <= i < MAX_LEVEL implies #[trigger] self.totals@[i]
                == 0 by {
                let b = i - chunk * 64;
                lemma_div_mod_64(chunk as int, b);
                lemma_bit_low_mask(x, offset as u64, b as u64);
                lemma_zero_word_bits(b as u64);
                assert(!self.bit_set(i));
            }
        }

        let mut c = chunk + 1;
        while c < B
            invariant
                self.bits_wf(),
                start < MAX_LEVEL,
                chunk == start / 64,
                chunk + 1 <= c <= B,
                self.empty_between(start as int, c * 64),
            decreases B - c,
        {
            let word = self.bitmap[c];
            if word != 0 {
                let tz = word.trailing_zeros();
                let j = c * CHUNK + tz as usize;
                proof {
                    lemma_div_mod_64(c as int, tz as int);
                    assert(self.bit_set(j as int));
                    assert forall|i: int| start <= i < j && 0 <= i < MAX_LEVEL implies #[trigger] self.totals@[i]
                        == 0 by {
                        if i >= c * 64 {
                            let b = i - c * 64;
                            lemma_div_mod_64(c as int, b);
                            assert(!bit_of(word, b));
                            assert(!self.bit_set(i));
                        }
                    }
                }
                return Some(j);
            }
            proof {
                assert forall|i: int| start <= i < (c + 1) * 64 && 0 <= i < MAX_LEVEL implies #[trigger] self.totals@[i]
                    == 0 by {
                    if i >= c * 64 {
                        let b = i - c * 64;
                        lemma_div_mod_64(c as int, b);
                        lemma_zero_word_bits(b as u64);
                        assert(!self.bit_set(i));
                    }
                }
            }
            c = c + 1;
        }
        None
    }

    /// The highest level at or below `start` (or below the top level, if
    /// `start` is beyond it) whose total is not zero.
    pub fn find_prev_non_empty_from(&self, start: usize) -> (r: Option<usize>)
        requires
            self.bits_wf(),
        ensures
            match r {
                None => self.empty_between(0, start as int + 1),
                Some(j) => j <= start && j < MAX_LEVEL && self.totals@[j as int] > 0 && self.empty_between(
                    j as int + 1,
                    start as int + 1,
                ),
            },
    {
        broadcast use vstd::std_specs::bits::axiom_u64_leading_zeros;

        let top_start = if start >= MAX_LEVEL {
            MAX_LEVEL - 1
        } else {
            start
        };

        let chunk = top_start / CHUNK;
        let offset = top_start % CHUNK;

        let mask = !0u64 >> ((63 - offset) as u64);
        let w = self.bitmap[chunk] & mask;
        if w != 0 {
            let lz = w.leading_zeros();
            let top = 63 - lz as usize;
            let j = chunk * CHUNK + top;
            proof {
                let x = self.bitmap@[chunk as int];
                lemma_bit_high_mask(x, offset as u64, top as u64);
                lemma_div_mod_64(chunk as int, top as int);
                lemma_split_64(top_start as int);
                lemma_and_one(w >> (top as u64));
                assert(bit_of(w, top as int));
                assert(self.bit_set(j as int));
                assert forall|i: int| j + 1 <= i < top_start + 1 && 0 <= i < MAX_LEVEL implies #[trigger] self.totals@[i]
                    == 0 by {
                    let b = i - chunk * 64;
                    lemma_div_mod_64(chunk as int, b);
                    lemma_bit_high_mask(x, offset as u64, b as u64);
                    assert(!bit_of(w, b));
                    assert(!self.bit_set(i));
                }
            }
            return Some(j);
        }
        proof {
            let x = self.bitmap@[chunk as int];
            lemma_split_64(top_start as int);
            assert forall|i: int| chunk * 64 <= i < top_start + 1 && 0 <= i < MAX_LEVEL implies #[trigger] self.totals@[i]
                == 0 by {
                let b = i - chunk * 64;
                lemma_div_mod_64(chunk as int, b);
                lemma_bit_high_mask(x, offset as u64, b as u64);
                lemma_zero_word_bits(b as u64);
                assert(!self.bit_set(i));
            }
        }

        let mut c = chunk;
        while c > 0
            invariant
                self.bits_wf(),
                top_start < MAX_LEVEL,
                top_start == (if start >= MAX_LEVEL { MAX_LEVEL - 1 } else { start as int }),
                top_start <= start,
                c <= chunk,
                chunk == top_start / 64,
                self.empty_between(c * 64, top_start as int + 1),
            decreases c,
        {
            c = c - 1;
            let word = self.bitmap[c];
            if word != 0 {
                let lz = word.leading_zeros();
                let top = 63 - lz as usize;
                let j = c * CHUNK + top;
                proof {
                    lemma_split_64(top_start as int);
                    lemma_div_mod_64(c as int, top as int);
                    lemma_and_one(word >> (top as u64));
                    assert(self.bit_set(j as int));
                    assert forall|i: int| j + 1 <= i < top_start + 1 && 0 <= i < MAX_LEVEL implies #[trigger] self.totals@[i]
                        == 0 by {
                        if i < (c + 1) * 64 {
                            let b = i - c * 64;
                            lemma_div_mod_64(c as int, b);
                            assert(!bit_of(word, b));
                            assert(!self.bit_set(i));
                        }
                    }
                    assert(self.empty_between(j as int + 1, start as int + 1));
                    assert(j <= start);
                    assert(j < MAX_LEVEL);
                    assert(self.totals@[j as int] > 0);
                }
                return Some(j);
            }
            proof {
                assert forall|i: int| c * 64 <= i < top_start + 1 && 0 <= i < MAX_LEVEL implies #[trigger] self.totals@[i]
                    == 0 by {
                    if i < (c + 1) * 64 {
                        let b = i - c * 64;
                        lemma_div_mod_64(c as int, b);
                        lemma_zero_word_bits(b as u64);
                        assert(!self.bit_set(i));
                    }
                }
            }
        }
        None
    }

    /// The price of level `index`.
    pub fn get_price_from_index(index: usize) -> (p: Price)
        requires
            index as int + PRICE_OFFSET <= u64::MAX,
        ensures
            p == price_of_level(index as int),
    {
        Price(index as u64 + PRICE_OFFSET)
    }

    /// The level that `price` falls on, if any.
    pub fn get_index_from_price(price: Price) -> (r: Option<usize>)
        ensures
            r == level_of_price(price),
    {
        if price.0 < PRICE_OFFSET {
            return None;
        }
        let offset = price.0 - PRICE_OFFSET;
        if offset >= MAX_LEVEL as u64 {
            None
        } else {
            Some(offset as usize)
        }
    }

    fn set_bit(&mut self, index: usize)
        requires
            index < MAX_LEVEL,
            forall|i: int| 0 <= i < MAX_LEVEL && i != index ==> (#[trigger] old(self).bit_set(i)
                <==> old(self).totals@[i] > 0),
            forall|i: int| MAX_LEVEL <= i < 1024 ==> !#[trigger] old(self).bit_set(i),
            old(self).totals@[index as int] > 0,
        ensures
            final(self).bits_wf(),
            final(self).totals == old(self).totals,
            final(self).levels == old(self).levels,
    {
        let c = index / CHUNK;
        let o = index % CHUNK;
        self.bitmap[c] = self.bitmap[c] | (1u64 << (o as u64));
        proof {
            let x = old(self).bitmap@[c as int];
            lemma_split_64(index as int);
            assert forall|i: int| 0 <= i < 1024 implies #[trigger] self.bit_set(i) == (old(self).bit_set(i)
                || i == index) by {
                lemma_split_64(i);
                if i / 64 == c {
                    lemma_bit_or(x, o as u64, (i % 64) as u64);
                }
            }
        }
    }

    fn clear_bit(&mut self, index: usize)
        requires
            index < MAX_LEVEL,
            forall|i: int| 0 <= i < MAX_LEVEL && i != index ==> (#[trigger] old(self).bit_set(i)
                <==> old(self).totals@[i] > 0),
            forall|i: int| MAX_LEVEL <= i < 1024 ==> !#[trigger] old(self).bit_set(i),
            old(self).totals@[index as int] == 0,
        ensures
            final(self).bits_wf(),
            final(self).totals == old(self).totals,
            final(self).levels == old(self).levels,
    {
        let c = index / CHUNK;
        let o = index % CHUNK;
        self.bitmap[c] = self.bitmap[c] & !(1u64 << (o as u64));
        proof {
            let x = old(self).bitmap@[c as int];
            lemma_split_64(index as int);
            assert forall|i: int| 0 <= i < 1024 implies #[trigger] self.bit_set(i) == (old(self).bit_set(i)
                && i != index) by {
                lemma_split_64(i);
                if i / 64 == c {
                    lemma_bit_clear(x, o as u64, (i % 64) as u64);
                }
            }
        }
    }
}

impl Default for PriceLevel {
    fn default() -> (pl: Self)
        ensures
            pl.bits_wf(),
            forall|i: int| 0 <= i < MAX_LEVEL ==> #[trigger] pl.totals@[i] == 0,
            forall|i: int| 0 <= i < MAX_LEVEL ==> (#[trigger] pl.levels@[i]).members@ == Seq::<usize>::empty()
                && pl.levels@[i].head is None && pl.levels@[i].tail is None,
    {
        Self::new()
    }
}

} // verus!

//! The write-ahead log's contents: raw frames, back to back.
use vstd::prelude::*;

use vstd::bytes::{spec_u32_from_le_bytes, u32_from_le_bytes};
use vstd::slice::{slice_subrange, slice_to_vec};

use crate::protocol::HEADER_SIZE;

verus! {

/// The length of the frame at the front of `b`: its length field plus four.
pub open spec fn frame_total(b: Seq<u8>) -> int {
    4 + spec_u32_from_le_bytes(b.subrange(0, 4)) as int
}

/// The whole frames at the front of `b`, in order; a trailing partial frame
/// is left out.
pub open spec fn split_spec(b: Seq<u8>) -> Seq<Seq<u8>>
    decreases b.len(),
{
    if b.len() < HEADER_SIZE {
        Seq::empty()
    } else if frame_total(b) > b.len() {
        Seq::empty()
    } else {
        seq![b.subrange(0, frame_total(b))] + split_spec(b.subrange(frame_total(b), b.len() as int))
    }
}

/// Splits a log's bytes into its whole frames, each with its length field.
pub fn split_frames(buffer: &[u8]) -> (frames: Vec<Vec<u8>>)
    ensures
        frames@.map_values(|f: Vec<u8>| f@) == split_spec(buffer@),
{
    let mut frames: Vec<Vec<u8>> = Vec::new();
    let mut pos: usize = 0;
    let n = buffer.len();
    let mut done = false;
    proof {
        assert(buffer@.subrange(0, n as int) =~= buffer@);
        assert(frames@.map_values(|f: Vec<u8>| f@) =~= Seq::<Seq<u8>>::empty());
        assert(Seq::<Seq<u8>>::empty() + split_spec(buffer@) =~= split_spec(buffer@));
    }
    while !done && n - pos >= HEADER_SIZE
        invariant
            n == buffer@.len(),
            pos <= n,
            frames@.map_values(|f: Vec<u8>| f@) + (if done {
                Seq::<Seq<u8>>::empty()
            } else {
                split_spec(buffer@.subrange(pos as int, n as int))
            }) == split_spec(buffer@),
        decreases n - pos + (if done { 0int } else { 1int }),
    {
        let ghost rest = buffer@.subrange(pos as int, n as int);
        let len = u32_from_le_bytes(slice_subrange(buffer, pos, pos + 4));
        proof {
            assert(rest.subrange(0, 4) =~= buffer@.subrange(pos as int, pos + 4));
        }
        let total_size = 4 + len as u64;
        if total_size > (n - pos) as u64 {
            done = true;
            proof {
                assert(split_spec(rest) == Seq::<Seq<u8>>::empty());
            }
        } else {
            let total = total_size as usize;
            let frame = slice_to_vec(slice_subrange(buffer, pos, pos + total));
            let ghost old_frames = frames@.map_values(|f: Vec<u8>| f@);
            frames.push(frame);
            proof {
                assert(rest.subrange(0, total as int) =~= frame@);
                assert(rest.subrange(total as int, rest.len() as int) =~= buffer@.subrange(pos + total, n as int));
                assert(frames@.map_values(|f: Vec<u8>| f@) =~= old_frames.push(frame@));
                assert(old_frames.push(frame@) + split_spec(buffer@.subrange(pos + total, n as int)) =~= old_frames + (
                seq![frame@] + split_spec(buffer@.subrange(pos + total, n as int))));
            }
            pos = pos + total;
        }
    }
    proof {
        let rest = buffer@.subrange(pos as int, n as int);
        if !done {
            assert(split_spec(rest) == Seq::<Seq<u8>>::empty());
        }
        assert(frames@.map_values(|f: Vec<u8>| f@) + Seq::<Seq<u8>>::empty() =~= frames@.map_values(|f: Vec<u8>| f@));
    }
    frames
}

} // verus!

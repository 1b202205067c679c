//! A client connection's read buffer and the frames found in it.
use vstd::prelude::*;

use vstd::bytes::{spec_u32_from_le_bytes, u32_from_le_bytes};
use vstd::slice::{slice_subrange, slice_to_vec};

use crate::journal::frame_total;

use crate::protocol::HEADER_SIZE;

verus! {

/// The size of a connection's read buffer.
pub const READ_BUF_SIZE: usize = 4096;

/// The whole frames at the front of `b` as a connection hands them out, and
/// the bytes after them; `None` when one of those frames has a zero length
/// field, so that it has no type byte.
pub open spec fn session_split(b: Seq<u8>) -> Option<(Seq<Seq<u8>>, Seq<u8>)>
    decreases b.len(),
{
    if b.len() < HEADER_SIZE || frame_total(b) > b.len() {
        Some((Seq::empty(), b))
    } else if frame_total(b) < HEADER_SIZE {
        None
    } else {
        match session_split(b.subrange(frame_total(b), b.len() as int)) {
            Some((fs, rest)) => Some((seq![b.subrange(0, frame_total(b))] + fs, rest)),
            None => None,
        }
    }
}

/// A client connection: its descriptor and the bytes read from it that do
/// not form a whole frame yet.
pub struct Session {
    pub fd: i32,
    pub read_buf: Box<[u8; READ_BUF_SIZE]>,
    pub read_pos: usize,
}

impl Session {
    /// The length field of the frame at the front of the buffer.
    pub open spec fn frame_len(&self) -> int {
        spec_u32_from_le_bytes(self.read_buf@.subrange(0, 4)) as int
    }

    /// The buffer holds a whole frame at its front.
    pub open spec fn frame_ready(&self) -> bool {
        self.read_pos >= HEADER_SIZE && self.read_pos >= 4 + self.frame_len()
    }

    /// A connection with an empty buffer.
    pub fn new(fd: i32) -> (s: Self)
        ensures
            s.fd == fd,
            s.read_pos == 0,
            s.read_buf@ == Seq::new(READ_BUF_SIZE as nat, |i: int| 0u8),
    {
        let s = Self { fd, read_buf: Box::new([0u8; READ_BUF_SIZE]), read_pos: 0 };
        proof {
            assert(s.read_buf@ =~= Seq::new(READ_BUF_SIZE as nat, |i: int| 0u8));
        }
        s
    }

    fn front_len(&self) -> (len: u32)
        ensures
            len == self.frame_len(),
    {
        u32_from_le_bytes(slice_subrange(self.read_buf.as_slice(), 0, 4))
    }

    /// The type and payload of the frame at the front of the buffer, once it
    /// is whole.
    pub fn try_parse_frame(&self) -> (r: Option<(u8, &[u8])>)
        requires
            self.read_pos <= READ_BUF_SIZE,
            self.read_pos >= HEADER_SIZE ==> self.frame_len() >= 1,
        ensures
            match r {
                None => !self.frame_ready(),
                Some((t, p)) => self.frame_ready() && t == self.read_buf@[4] && p@ == self.read_buf@.subrange(
                    5,
                    4 + self.frame_len(),
                ),
            },
    {
        if self.read_pos < HEADER_SIZE {
            return None;
        }
        let len = self.front_len();
        if (self.read_pos as u64) < 4 + len as u64 {
            return None;
        }
        let total_frame_size = 4 + len as usize;
        let msg_type = self.read_buf[4];
        let payload = slice_subrange(self.read_buf.as_slice(), 5, total_frame_size);
        Some((msg_type, payload))
    }

    /// The bytes read and not handed out yet.
    pub open spec fn pending(&self) -> Seq<u8> {
        self.read_buf@.subrange(0, self.read_pos as int)
    }

    /// Hands out every whole frame at the front of the buffer, each with its
    /// length field, and keeps the bytes after them. `None` when a frame has
    /// a zero length field; the buffer is then left unspecified.
    pub fn take_frames(&mut self) -> (r: Option<Vec<Vec<u8>>>)
        requires
            old(self).read_pos <= READ_BUF_SIZE,
        ensures
            final(self).fd == old(self).fd,
            final(self).read_pos <= READ_BUF_SIZE,
            match session_split(old(self).pending()) {
                Some((fs, rest)) => r is Some && r->0@.map_values(|f: Vec<u8>| f@) == fs && final(self).pending() == rest,
                None => r is None,
            },
    {
        let ghost p0 = self.pending();
        let mut frames: Vec<Vec<u8>> = Vec::new();
        let mut done = false;
        proof {
            assert(frames@.map_values(|f: Vec<u8>| f@) =~= Seq::<Seq<u8>>::empty());
            match session_split(p0) {
                Some((fs, rest)) => {
                    assert(Seq::<Seq<u8>>::empty() + fs =~= fs);
                },
                None => {},
            }
        }
        while !done
            invariant
                self.read_pos <= READ_BUF_SIZE,
                self.read_buf@.len() == READ_BUF_SIZE,
                self.fd == old(self).fd,
                p0 == old(self).pending(),
                session_split(p0) == (if done {
                    Some((frames@.map_values(|f: Vec<u8>| f@), self.pending()))
                } else {
                    match session_split(self.pending()) {
                        Some((fs, rest)) => Some((frames@.map_values(|f: Vec<u8>| f@) + fs, rest)),
                        None => None,
                    }
                }),
            decreases self.read_pos + (if done { 0int } else { 1int }),
        {
            let ghost p = self.pending();
            let ghost fv = frames@.map_values(|f: Vec<u8>| f@);
            if self.read_pos >= HEADER_SIZE {
                proof {
                    assert(p.subrange(0, 4) =~= self.read_buf@.subrange(0, 4));
                }
                let len = self.front_len();
                if len == 0 {
                    proof {
                        assert(frame_total(p) == 4 && p.len() >= HEADER_SIZE);
                        assert(session_split(p) is None);
                    }
                    return None;
                }
            }
            let total = match self.try_parse_frame() {
                None => 0,
                Some((_, payload)) => 5 + payload.len(),
            };
            if total == 0 {
                done = true;
                proof {
                    assert(fv + Seq::<Seq<u8>>::empty() =~= fv);
                }
            } else {
                proof {
                    assert(p.subrange(0, 4) =~= self.read_buf@.subrange(0, 4));
                    assert(frame_total(p) == total);
                }
                let f = slice_to_vec(slice_subrange(self.read_buf.as_slice(), 0, total));
                frames.push(f);
                self.consume_frame();
                proof {
                    assert(f@ =~= p.subrange(0, total as int));
                    assert(self.pending() =~= p.subrange(total as int, p.len() as int));
                    assert(frames@.map_values(|f: Vec<u8>| f@) =~= fv.push(f@));
                    match session_split(self.pending()) {
                        Some((fs, rest)) => {
                            assert(fv.push(f@) + fs =~= fv + (seq![f@] + fs));
                        },
                        None => {},
                    }
                }
            }
        }
        Some(frames)
    }

    /// Drops the whole frame at the front of the buffer, moving what follows
    /// it to the front.
    pub fn consume_frame(&mut self)
        requires
            old(self).read_pos <= READ_BUF_SIZE,
            old(self).frame_ready(),
        ensures
            ({
                let total = 4 + old(self).frame_len();
                &&& final(self).read_pos == old(self).read_pos - total
                &&& final(self).read_buf@.subrange(0, final(self).read_pos as int) == old(self).read_buf@.subrange(
                    total,
                    old(self).read_pos as int,
                )
                &&& final(self).read_buf@.len() == READ_BUF_SIZE
            }),
            final(self).fd == old(self).fd,
    {
        let len = self.front_len();
        let total = 4 + len as usize;
        let remaining = self.read_pos - total;
        let ghost b0 = self.read_buf@;
        let ghost fd0 = self.fd;
        if remaining > 0 {
            let mut i: usize = 0;
            while i < remaining
                invariant
                    0 <= i <= remaining,
                    remaining + total <= READ_BUF_SIZE,
                    total >= 4,
                    self.read_buf@.len() == READ_BUF_SIZE,
                    b0.len() == READ_BUF_SIZE,
                    self.fd == fd0,
                    forall|j: int| 0 <= j < i ==> #[trigger] self.read_buf@[j] == b0[total + j],
                    forall|j: int| i <= j < READ_BUF_SIZE ==> #[trigger] self.read_buf@[j] == b0[j],
                decreases remaining - i,
            {
                let x = self.read_buf[total + i];
                self.read_buf[i] = x;
                i = i + 1;
            }
        }
        self.read_pos = remaining;
        proof {
            assert(self.read_buf@.subrange(0, remaining as int) =~= b0.subrange(total as int, (total + remaining) as int));
        }
    }
}

} // verus!

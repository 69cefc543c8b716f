//! The in-memory byte source every decoder pulls from.
//!
//! The surrounding application hands the compressed stream over as a plain
//! byte vector; a [`ByteReader`] walks it front to back. Reading past the end
//! is the "EOF inside a chunk body" condition and surfaces as
//! [`Error::UnexpectedEof`].

use vstd::prelude::*;

use crate::Error;

verus! {

/// A cursor over a byte vector. `pos` is the index of the next unread byte.
pub struct ByteReader {
    data: Vec<u8>,
    pos: usize,
}

impl ByteReader {
    /// The sequence of bytes not yet consumed.
    pub closed spec fn remaining(self) -> Seq<u8> {
        self.data@.subrange(self.pos as int, self.data@.len() as int)
    }

    pub closed spec fn wf(self) -> bool {
        self.pos <= self.data@.len()
    }

    /// Wrap a byte vector so the decoders can consume it.
    pub fn new(data: Vec<u8>) -> (r: ByteReader)
        ensures
            r.wf(),
            r.remaining() == data@,
    {
        let r = ByteReader { data, pos: 0 };
        proof {
            assert(r.remaining() =~= r.data@);
        }
        r
    }

    /// How many bytes are left to read.
    pub fn remaining_len(&self) -> (n: usize)
        requires
            self.wf(),
        ensures
            n == self.remaining().len(),
    {
        self.data.len() - self.pos
    }

    /// Read one byte.
    pub fn read_u8(&mut self) -> (r: Result<u8, Error>)
        requires
            old(self).wf(),
        ensures
            final(self).wf(),
            old(self).remaining().len() == 0 ==> r == Err::<u8, Error>(Error::UnexpectedEof)
                && final(self).remaining() == old(self).remaining(),
            old(self).remaining().len() > 0 ==> r == Ok::<u8, Error>(old(self).remaining()[0])
                && final(self).remaining() == old(self).remaining().skip(1),
    {
        if self.pos < self.data.len() {
            let b = self.data[self.pos];
            self.pos = self.pos + 1;
            proof {
                assert(self.remaining() =~= old(self).remaining().skip(1));
            }
            Ok(b)
        } else {
            proof {
                assert(self.remaining() =~= old(self).remaining());
            }
            Err(Error::UnexpectedEof)
        }
    }

    /// Read two bytes as a big-endian 16-bit value.
    pub fn read_u16_be(&mut self) -> (r: Result<u16, Error>)
        requires
            old(self).wf(),
        ensures
            final(self).wf(),
            old(self).remaining().len() < 2 ==> r == Err::<u16, Error>(Error::UnexpectedEof)
                && final(self).remaining() == old(self).remaining(),
            old(self).remaining().len() >= 2 ==> r == Ok::<u16, Error>(
                (old(self).remaining()[0] * 256 + old(self).remaining()[1]) as u16,
            ) && final(self).remaining() == old(self).remaining().skip(2),
    {
        if 2 <= self.data.len() - self.pos {
            let hi = self.data[self.pos];
            let lo = self.data[self.pos + 1];
            self.pos = self.pos + 2;
            proof {
                assert(self.remaining() =~= old(self).remaining().skip(2));
            }
            Ok((hi as u16) * 256 + (lo as u16))
        } else {
            proof {
                assert(self.remaining() =~= old(self).remaining());
            }
            Err(Error::UnexpectedEof)
        }
    }

    /// What a little-endian byte sequence denotes, least-significant byte
    /// first.
    pub open spec fn le_value(s: Seq<u8>) -> int
        decreases s.len(),
    {
        if s.len() == 0 {
            0
        } else {
            s[0] + 256 * Self::le_value(s.skip(1))
        }
    }

    /// Read four bytes as a little-endian 32-bit value.
    pub fn read_u32_le(&mut self) -> (r: Result<u32, Error>)
        requires
            old(self).wf(),
        ensures
            final(self).wf(),
            old(self).remaining().len() < 4 ==> r == Err::<u32, Error>(Error::UnexpectedEof)
                && final(self).remaining() == old(self).remaining(),
            old(self).remaining().len() >= 4 ==> (r matches Ok(v) && v == Self::le_value(
                old(self).remaining().take(4),
            ) && final(self).remaining() == old(self).remaining().skip(4)),
    {
        if 4 <= self.data.len() - self.pos {
            let ghost pre = self.remaining();
            let b0 = self.data[self.pos];
            let b1 = self.data[self.pos + 1];
            let b2 = self.data[self.pos + 2];
            let b3 = self.data[self.pos + 3];
            self.pos = self.pos + 4;
            let v = (b0 as u32) + (b1 as u32) * 0x100 + (b2 as u32) * 0x1_0000 + (b3 as u32)
                * 0x100_0000;
            proof {
                assert(self.remaining() =~= old(self).remaining().skip(4));
                lemma_le_value_4(pre.take(4));
                assert(pre.take(4)[0] == b0 && pre.take(4)[1] == b1 && pre.take(4)[2] == b2
                    && pre.take(4)[3] == b3);
            }
            Ok(v)
        } else {
            Err(Error::UnexpectedEof)
        }
    }

    /// Read eight bytes as a little-endian 64-bit value.
    pub fn read_u64_le(&mut self) -> (r: Result<u64, Error>)
        requires
            old(self).wf(),
        ensures
            final(self).wf(),
            old(self).remaining().len() < 8 ==> r == Err::<u64, Error>(Error::UnexpectedEof)
                && final(self).remaining() == old(self).remaining(),
            old(self).remaining().len() >= 8 ==> (r matches Ok(v) && v == Self::le_value(
                old(self).remaining().take(8),
            ) && final(self).remaining() == old(self).remaining().skip(8)),
    {
        if 8 <= self.data.len() - self.pos {
            let ghost pre = self.remaining();
            let lo = match self.read_u32_le() {
                Ok(x) => x,
                Err(e) => {
                    return Err(e);
                },
            };
            let hi = match self.read_u32_le() {
                Ok(x) => x,
                Err(e) => {
                    return Err(e);
                },
            };
            let r = (lo as u64) + (hi as u64) * 0x1_0000_0000;
            proof {
                assert(pre.take(8).take(4) =~= pre.take(4));
                assert(pre.take(8).skip(4) =~= pre.skip(4).take(4));
                lemma_le_value_split(pre.take(8), 4);
                reveal_with_fuel(pow256, 5);
                assert(pow256(4) == 0x1_0000_0000);
                assert(ByteReader::le_value(pre.take(8)) == lo + 0x1_0000_0000 * (hi as int));
                assert(self.remaining() =~= old(self).remaining().skip(8));
            }
            Ok(r)
        } else {
            Err(Error::UnexpectedEof)
        }
    }

    /// Copy `len` bytes out, or fail without consuming anything if fewer are
    /// left.
    pub fn read_bytes(&mut self, len: usize) -> (r: Result<Vec<u8>, Error>)
        requires
            old(self).wf(),
        ensures
            final(self).wf(),
            old(self).remaining().len() < len ==> r == Err::<Vec<u8>, Error>(Error::UnexpectedEof)
                && final(self).remaining() == old(self).remaining(),
            old(self).remaining().len() >= len ==> (r matches Ok(v) && v@ == old(self).remaining().take(len as int) && final(self).remaining() == old(self).remaining().skip(
                len as int,
            )),
    {
        if len <= self.data.len() - self.pos {
            let mut out: Vec<u8> = Vec::new();
            let mut i: usize = 0;
            while i < len
                invariant
                    i <= len,
                    self.pos + len <= self.data.len(),
                    *self == (ByteReader { pos: old(self).pos, ..*old(self) }),
                    out@ =~= old(self).remaining().take(len as int).take(i as int),
                decreases len - i,
            {
                let b = self.data[self.pos + i];
                out.push(b);
                i = i + 1;
            }
            self.pos = self.pos + len;
            proof {
                assert(out@ =~= old(self).remaining().take(len as int));
                assert(self.remaining() =~= old(self).remaining().skip(len as int));
            }
            Ok(out)
        } else {
            proof {
                assert(self.remaining() =~= old(self).remaining());
            }
            Err(Error::UnexpectedEof)
        }
    }
}

/// Spelling out [`ByteReader::le_value`] on a four-byte sequence.
proof fn lemma_le_value_4(s: Seq<u8>)
    requires
        s.len() == 4,
    ensures
        ByteReader::le_value(s) == s[0] + s[1] * 0x100 + s[2] * 0x1_0000 + s[3] * 0x100_0000,
{
    assert(s.skip(1).skip(1) =~= s.skip(2));
    assert(s.skip(2).skip(1) =~= s.skip(3));
    assert(s.skip(3).skip(1) =~= s.skip(4));
    assert(s.skip(4).len() == 0);
    assert(ByteReader::le_value(s.skip(3)) == s.skip(3)[0] + 256 * ByteReader::le_value(s.skip(4)));
    assert(ByteReader::le_value(s.skip(2)) == s.skip(2)[0] + 256 * ByteReader::le_value(s.skip(3)));
    assert(ByteReader::le_value(s.skip(1)) == s.skip(1)[0] + 256 * ByteReader::le_value(s.skip(2)));
    assert(s.skip(1)[0] == s[1] && s.skip(2)[0] == s[2] && s.skip(3)[0] == s[3]);
}

/// A little-endian value splits at any byte boundary `k` into a low part and
/// a shifted high part.
proof fn lemma_le_value_split(s: Seq<u8>, k: int)
    requires
        0 <= k <= s.len(),
    ensures
        ByteReader::le_value(s) == ByteReader::le_value(s.take(k)) + pow256(k)
            * ByteReader::le_value(s.skip(k)),
    decreases k,
{
    if k == 0 {
        assert(s.take(0).len() == 0);
        assert(s.skip(0) =~= s);
    } else {
        lemma_le_value_split(s.skip(1), k - 1);
        assert(s.skip(1).take(k - 1) =~= s.take(k).skip(1));
        assert(s.skip(1).skip(k - 1) =~= s.skip(k));
        let a = ByteReader::le_value(s.take(k).skip(1));
        let p = pow256(k - 1);
        let b = ByteReader::le_value(s.skip(k));
        assert(ByteReader::le_value(s) == s[0] + 256 * (a + p * b));
        assert(ByteReader::le_value(s.take(k)) == s.take(k)[0] + 256 * a);
        assert(s.take(k)[0] == s[0]);
        assert(256 * (a + p * b) == 256 * a + (256 * p) * b) by (nonlinear_arith);
        assert(pow256(k) == 256 * pow256(k - 1));
    }
}

/// `256^k`, the weight of the `k`-th byte of a little-endian value.
pub open spec fn pow256(k: int) -> int
    decreases k,
{
    if k <= 0 {
        1
    } else {
        256 * pow256(k - 1)
    }
}

} // verus!

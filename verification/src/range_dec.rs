//! The binary arithmetic (range) decoder.
//!
//! A range decoder holds two 32-bit words, `range` and `code`, and a buffer
//! of compressed bytes. Each decoded bit narrows the interval `[0, range)`
//! around `code`; whenever `range` drops below `1 << 24`, one more compressed
//! byte is shifted in. Every operation here carries an exact functional
//! contract: the spec functions below compute precisely the state each
//! operation must leave behind, so two decoders fed the same bytes are
//! provably in the same state.

use vstd::prelude::*;

use crate::byte_reader::ByteReader;
use crate::probs_ok;
use crate::Error;

verus! {

/// The bytes a freshly prepared LZMA2 chunk buffer can hold:
/// `COMPRESSED_SIZE_MAX` minus the five range-coder priming bytes.
pub const CHUNK_BUF_SIZE: usize = 65531;

/// The compressed bytes owned by a [`RangeDecoder`], consumed front to back.
pub struct RangeDecoderBuffer {
    buf: Vec<u8>,
    pos: usize,
}

/// The mathematical state of a range decoder: the two coder words plus the
/// compressed bytes not yet shifted in.
#[verifier::ext_equal]
pub struct RcView {
    pub range: u32,
    pub code: u32,
    pub rest: Seq<u8>,
}

/// What `normalize` computes: when `range` has dropped below `1 << 24`, shift
/// in one byte; `None` when that byte is missing.
pub open spec fn spec_normalize(v: RcView) -> Option<RcView> {
    if v.range >= 0x0100_0000 {
        Some(v)
    } else if v.rest.len() == 0 {
        None
    } else {
        Some(
            RcView {
                range: v.range << 8,
                code: (v.code << 8) | (v.rest[0] as u32),
                rest: v.rest.skip(1),
            },
        )
    }
}

/// The split point for one adaptive bit: the width of the sub-interval that
/// encodes a zero bit.
pub open spec fn spec_bound(range: u32, p: u16) -> int {
    (range >> 11) * p
}

/// How a probability adapts after decoding a zero bit.
pub open spec fn spec_prob_inc(p: u16) -> u16 {
    (p + (((2048 - p) as u16) >> 5)) as u16
}

/// How a probability adapts after decoding a one bit.
pub open spec fn spec_prob_dec(p: u16) -> u16 {
    (p - (p >> 5)) as u16
}

/// What `decode_bit` computes from a coder state and one adaptive
/// probability: the bit, the next coder state, and the adapted probability.
/// `None` when the stream ran out during normalization.
pub open spec fn spec_decode_bit(v: RcView, p: u16) -> Option<(u32, RcView, u16)> {
    match spec_normalize(v) {
        None => None,
        Some(n) => {
            let bound = spec_bound(n.range, p);
            if n.code < bound {
                Some(
                    (
                        0u32,
                        RcView { range: bound as u32, code: n.code, rest: n.rest },
                        spec_prob_inc(p),
                    ),
                )
            } else {
                Some(
                    (
                        1u32,
                        RcView {
                            range: (n.range - bound) as u32,
                            code: (n.code - bound) as u32,
                            rest: n.rest,
                        },
                        spec_prob_dec(p),
                    ),
                )
            }
        },
    }
}

/// What one fixed-probability (direct) bit computes: halve the range, then
/// select against `code` exactly as the bit-twiddling decoder does.
pub open spec fn spec_direct_bit(v: RcView) -> Option<(u32, RcView)> {
    match spec_normalize(v) {
        None => None,
        Some(n) => {
            let half = n.range >> 1;
            if n.code < half || n.code - half >= 0x8000_0000 {
                Some((0u32, RcView { range: half, code: n.code, rest: n.rest }))
            } else {
                Some((1u32, RcView { range: half, code: (n.code - half) as u32, rest: n.rest }))
            }
        },
    }
}

/// What a walk down a probability tree computes: starting from node
/// `symbol`, each adaptive bit picks a child until the walk leaves the
/// `size` inner nodes; the final node index, coder state and adapted table
/// come back. `None` when the stream ran out.
pub open spec fn spec_tree_walk(
    v: RcView,
    probs: Seq<u16>,
    off: int,
    size: int,
    symbol: int,
) -> Option<(int, RcView, Seq<u16>)>
    decreases 2 * size - symbol,
{
    if symbol >= size || symbol < 1 || size < 2 {
        Some((symbol, v, probs))
    } else {
        match spec_decode_bit(v, probs[off + symbol]) {
            None => None,
            Some((b, v2, p2)) => spec_tree_walk(
                v2,
                probs.update(off + symbol, p2),
                off,
                size,
                2 * symbol + b,
            ),
        }
    }
}

/// What the same walk computes when the decoded bits are assembled
/// least-significant first: `weight` is the value of the next bit and `acc`
/// the bits assembled so far.
pub open spec fn spec_reverse_tree_walk(
    v: RcView,
    probs: Seq<u16>,
    off: int,
    size: int,
    symbol: int,
    weight: int,
    acc: int,
) -> Option<(int, RcView, Seq<u16>)>
    decreases 2 * size - symbol,
{
    if symbol >= size || symbol < 1 || size < 2 {
        Some((acc, v, probs))
    } else {
        match spec_decode_bit(v, probs[off + symbol]) {
            None => None,
            Some((b, v2, p2)) => spec_reverse_tree_walk(
                v2,
                probs.update(off + symbol, p2),
                off,
                size,
                2 * symbol + b,
                2 * weight,
                acc + b * weight,
            ),
        }
    }
}

/// What a run of `count` direct bits computes: each bit narrows the state by
/// [`spec_direct_bit`] and lands most-significant first in the result.
pub open spec fn spec_direct_bits(v: RcView, count: int) -> Option<(u32, RcView)>
    decreases count,
{
    if count <= 0 {
        Some((0u32, v))
    } else {
        match spec_direct_bit(v) {
            None => None,
            Some((b, v2)) => match spec_direct_bits(v2, count - 1) {
                None => None,
                Some((rest, vf)) => Some((((b * pow2int(count - 1) + rest) as u32), vf)),
            },
        }
    }
}

/// A run of `count` direct bits yields a value below `2^count`, so for the
/// bit counts the format uses nothing is ever truncated.
pub proof fn lemma_direct_bits_bound(v: RcView, count: int)
    requires
        count <= 31,
    ensures
        match spec_direct_bits(v, count) {
            Some((r, vf)) => r < pow2int(count),
            None => true,
        },
    decreases count,
{
    lemma_pow2int_nonneg(count);
    if count > 0 {
        match spec_direct_bit(v) {
            None => {},
            Some((b, v2)) => {
                lemma_direct_bits_bound(v2, count - 1);
                lemma_pow2int_increases(count - 1, 30);
                reveal_with_fuel(pow2int, 32);
                assert(pow2int(30) == 0x4000_0000);
                assert(b <= 1);
                let p = pow2int(count - 1);
                match spec_direct_bits(v2, count - 1) {
                    None => {},
                    Some((rest, vf)) => {
                        assert(b * p <= p) by (nonlinear_arith)
                            requires
                                b <= 1 && p >= 0,
                        ;
                        assert(b * p + rest < 2 * p);
                        assert(pow2int(count) == 2 * p);
                    },
                }
            },
        }
    }
}

/// `2^k`, used to bound accumulated direct bits.
pub open spec fn pow2int(k: int) -> int
    decreases k,
{
    if k <= 0 {
        1
    } else {
        2 * pow2int(k - 1)
    }
}

pub proof fn lemma_pow2int_nonneg(k: int)
    ensures
        pow2int(k) >= 1,
    decreases k,
{
    if k > 0 {
        lemma_pow2int_nonneg(k - 1);
    }
}

pub proof fn lemma_pow2int_increases(a: int, b: int)
    requires
        a <= b,
    ensures
        pow2int(a) <= pow2int(b),
    decreases b,
{
    if a < b && b > 0 {
        lemma_pow2int_increases(a, b - 1);
        lemma_pow2int_nonneg(b - 1);
    }
}

/// Probabilities stay inside `[0, 2047]`: if a probability is in range
/// before a bit is decoded, both possible adaptations leave it in range, so
/// every probability a decoder holds stays a valid 11-bit estimate forever.
pub proof fn lemma_prob_update_in_range(p: u16)
    requires
        p <= 2047,
    ensures
        spec_prob_inc(p) <= 2047,
        spec_prob_dec(p) <= 2047,
{
    assert(p <= 2047 ==> p + (((2048 - p) as u16) >> 5) <= 2047 && p - (p >> 5) <= 2047 && p >> 5
        <= p) by (bit_vector);
}

/// Decoding is deterministic at the level where all stream consumption
/// happens: the outcome of one adaptive bit, one direct bit, and one
/// normalization step is a function of the coder state and the probability
/// alone. Together with the exact contracts of `normalize`, `decode_bit` and
/// `decode_direct_bits`, two decoders primed identically and fed the same
/// bytes pass through identical states.
pub proof fn lemma_bit_step_deterministic(v1: RcView, v2: RcView, p1: u16, p2: u16)
    requires
        v1 == v2,
        p1 == p2,
    ensures
        spec_decode_bit(v1, p1) == spec_decode_bit(v2, p2),
        spec_direct_bit(v1) == spec_direct_bit(v2),
        spec_normalize(v1) == spec_normalize(v2),
{
}

/// The zero-bit sub-interval never exceeds the range it splits, and fits in
/// 32 bits.
pub proof fn lemma_bound_le_range(r: u32, p: u16)
    requires
        p <= 2047,
    ensures
        0 <= spec_bound(r, p) <= r,
{
    assert(r >> 11 == r / 2048) by (bit_vector);
    let q = r >> 11;
    assert(q * p <= q * 2047) by (nonlinear_arith)
        requires
            p <= 2047 && q >= 0,
    ;
    assert((r / 2048) * 2048 <= r) by (nonlinear_arith);
    assert(q * 2047 == q * 2048 - q) by (nonlinear_arith);
}

impl RangeDecoderBuffer {
    pub closed spec fn remaining(self) -> Seq<u8> {
        self.buf@.skip(self.pos as int)
    }

    pub closed spec fn wf(self) -> bool {
        self.pos <= self.buf@.len()
    }

    /// An empty buffer backed by `len` bytes of storage; `prepare` fills it
    /// chunk by chunk.
    pub fn new(len: usize) -> (r: RangeDecoderBuffer)
        ensures
            r.wf(),
            r.remaining().len() == 0,
    {
        let mut buf: Vec<u8> = Vec::new();
        let mut i: usize = 0;
        while i < len
            invariant
                buf@.len() == i,
                i <= len,
            decreases len - i,
        {
            buf.push(0);
            i = i + 1;
        }
        let r = RangeDecoderBuffer { buf, pos: len };
        proof {
            assert(r.remaining() =~= Seq::<u8>::empty());
        }
        r
    }
}

/// The range decoder itself. `inner` holds the compressed bytes still to be
/// shifted in.
pub struct RangeDecoder {
    inner: RangeDecoderBuffer,
    range: u32,
    code: u32,
}

impl RangeDecoder {
    pub closed spec fn view(&self) -> RcView {
        RcView { range: self.range, code: self.code, rest: self.inner.remaining() }
    }

    pub closed spec fn wf(self) -> bool {
        self.inner.wf()
    }

    /// A decoder around an empty chunk buffer of `len - 5` bytes, matching a
    /// largest chunk of `len` compressed bytes (five of which prime the
    /// coder words and never reach the buffer).
    pub fn new_buffer(len: usize) -> (r: RangeDecoder)
        requires
            len >= 5,
        ensures
            r.wf(),
            r@.rest.len() == 0,
            r@.code == 0,
            r@.range == 0,
    {
        RangeDecoder { inner: RangeDecoderBuffer::new(len - 5), code: 0, range: 0 }
    }

    /// Prime a decoder over one continuous stream: the first byte must be
    /// zero, the next four set `code` big-endian, and everything after
    /// belongs to the coder.
    pub fn new_stream(src: ByteReader) -> (r: Result<RangeDecoder, Error>)
        requires
            src.wf(),
        ensures
            src.remaining().len() == 0 ==> r == Err::<RangeDecoder, Error>(Error::UnexpectedEof),
            src.remaining().len() > 0 && src.remaining()[0] != 0 ==> r == Err::<
                RangeDecoder,
                Error,
            >(Error::InvalidInput),
            src.remaining().len() < 5 && (src.remaining().len() == 0 || src.remaining()[0] == 0)
                ==> r == Err::<RangeDecoder, Error>(Error::UnexpectedEof),
            src.remaining().len() >= 5 && src.remaining()[0] == 0 ==> (r matches Ok(d) && d.wf()
                && d@.range == 0xFFFF_FFFFu32 && d@.code == (src.remaining()[1] as u32) * 0x100_0000
                + (src.remaining()[2] as u32) * 0x1_0000 + (src.remaining()[3] as u32) * 0x100 + (
            src.remaining()[4] as u32) && d@.rest == src.remaining().skip(5)),
    {
        let mut src = src;
        let ghost pre = src.remaining();
        let b = match src.read_u8() {
            Ok(b) => b,
            Err(e) => {
                return Err(e);
            },
        };
        if b != 0 {
            return Err(Error::InvalidInput);
        }
        let b1 = match src.read_u8() {
            Ok(b) => b,
            Err(e) => {
                return Err(e);
            },
        };
        let b2 = match src.read_u8() {
            Ok(b) => b,
            Err(e) => {
                return Err(e);
            },
        };
        let b3 = match src.read_u8() {
            Ok(b) => b,
            Err(e) => {
                return Err(e);
            },
        };
        let b4 = match src.read_u8() {
            Ok(b) => b,
            Err(e) => {
                return Err(e);
            },
        };
        let code = (b1 as u32) * 0x100_0000 + (b2 as u32) * 0x1_0000 + (b3 as u32) * 0x100 + (
        b4 as u32);
        let n = src.remaining_len();
        let rest = match src.read_bytes(n) {
            Ok(v) => v,
            Err(e) => {
                return Err(e);
            },
        };
        let d = RangeDecoder {
            inner: RangeDecoderBuffer { buf: rest, pos: 0 },
            range: 0xFFFF_FFFFu32,
            code,
        };
        proof {
            assert(pre.skip(1)[0] == pre[1] && pre.skip(1).skip(1)[0] == pre[2]);
            assert(pre.skip(1).skip(1) =~= pre.skip(2));
            assert(pre.skip(2).skip(1) =~= pre.skip(3));
            assert(pre.skip(3).skip(1) =~= pre.skip(4));
            assert(pre.skip(4).skip(1) =~= pre.skip(5));
            assert(d@.rest =~= pre.skip(5));
        }
        Ok(d)
    }

    /// Refill the chunk buffer for one LZMA2 chunk of `len` compressed
    /// bytes: one zero byte, four big-endian code bytes, then `len - 5`
    /// buffered bytes, all taken from `src`.
    pub fn prepare(&mut self, src: &mut ByteReader, len: usize) -> (r: Result<(), Error>)
        requires
            old(self).wf(),
            old(src).wf(),
            len <= CHUNK_BUF_SIZE + 5,
        ensures
            final(self).wf(),
            final(src).wf(),
            len < 5 ==> r == Err::<(), Error>(Error::InvalidInput),
            len >= 5 && old(src).remaining().len() >= len && old(src).remaining()[0] == 0 ==> (
            r matches Ok(_) && final(self)@.range == 0xFFFF_FFFFu32 && final(self)@.code == (old(
                src).remaining()[1] as u32) * 0x100_0000 + (old(src).remaining()[2] as u32)
                * 0x1_0000 + (old(src).remaining()[3] as u32) * 0x100 + (old(
                src).remaining()[4] as u32) && final(self)@.rest == old(src).remaining().subrange(
                5, len as int) && final(src).remaining() == old(src).remaining().skip(len as int)),
            len >= 5 && old(src).remaining().len() >= len && old(src).remaining()[0] != 0 ==> r
                == Err::<(), Error>(Error::InvalidInput),
            len >= 5 && old(src).remaining().len() < len ==> r == Err::<(), Error>(
                Error::UnexpectedEof,
            ),
    {
        if len < 5 {
            return Err(Error::InvalidInput);
        }
        let ghost pre = src.remaining();
        if src.remaining_len() < len {
            return Err(Error::UnexpectedEof);
        }
        let b = match src.read_u8() {
            Ok(b) => b,
            Err(e) => {
                return Err(e);
            },
        };
        if b != 0 {
            return Err(Error::InvalidInput);
        }
        let b1 = match src.read_u8() {
            Ok(b) => b,
            Err(e) => {
                return Err(e);
            },
        };
        let b2 = match src.read_u8() {
            Ok(b) => b,
            Err(e) => {
                return Err(e);
            },
        };
        let b3 = match src.read_u8() {
            Ok(b) => b,
            Err(e) => {
                return Err(e);
            },
        };
        let b4 = match src.read_u8() {
            Ok(b) => b,
            Err(e) => {
                return Err(e);
            },
        };
        let body = match src.read_bytes(len - 5) {
            Ok(v) => v,
            Err(e) => {
                return Err(e);
            },
        };
        self.code = (b1 as u32) * 0x100_0000 + (b2 as u32) * 0x1_0000 + (b3 as u32) * 0x100 + (
        b4 as u32);
        self.range = 0xFFFF_FFFFu32;
        self.inner = RangeDecoderBuffer { buf: body, pos: 0 };
        proof {
            assert(pre.skip(1)[0] == pre[1] && pre.skip(1).skip(1)[0] == pre[2]);
            assert(pre.skip(1).skip(1) =~= pre.skip(2));
            assert(pre.skip(2).skip(1) =~= pre.skip(3));
            assert(pre.skip(3).skip(1) =~= pre.skip(4));
            assert(pre.skip(4).skip(1) =~= pre.skip(5));
            assert(self@.rest =~= pre.subrange(5, len as int));
            assert(src.remaining() =~= pre.skip(len as int));
        }
        Ok(())
    }

    /// A cleanly finished stream leaves `code` at zero.
    pub fn is_stream_finished(&self) -> (r: bool)
        ensures
            r == (self@.code == 0),
    {
        self.code == 0
    }

    /// A cleanly finished chunk leaves no buffered byte and `code` at zero.
    pub fn is_finished(&self) -> (r: bool)
        requires
            self.wf(),
        ensures
            r == (self@.rest.len() == 0 && self@.code == 0),
    {
        self.inner.pos == self.inner.buf.len() && self.code == 0
    }

    /// Shift one compressed byte in when `range` has dropped below `1 << 24`.
    pub fn normalize(&mut self) -> (r: Result<(), Error>)
        requires
            old(self).wf(),
        ensures
            final(self).wf(),
            match spec_normalize(old(self)@) {
                Some(v) => r == Ok::<(), Error>(()) && final(self)@ == v,
                None => r == Err::<(), Error>(Error::UnexpectedEof) && final(self)@ == old(self)@,
            },
    {
        if self.range < 0x0100_0000 {
            if self.inner.pos < self.inner.buf.len() {
                let b = self.inner.buf[self.inner.pos];
                self.inner.pos = self.inner.pos + 1;
                self.code = (self.code << 8) | (b as u32);
                self.range = self.range << 8;
                proof {
                    assert(self.inner.remaining() =~= old(self).inner.remaining().skip(1));
                    assert(self@ =~= spec_normalize(old(self)@).unwrap());
                }
                Ok(())
            } else {
                proof {
                    assert(self@ =~= old(self)@);
                }
                Err(Error::UnexpectedEof)
            }
        } else {
            proof {
                assert(self@ =~= old(self)@);
            }
            Ok(())
        }
    }

    /// Decode one bit against the adaptive probability `probs[i]` and adapt
    /// it, exactly as [`spec_decode_bit`] states.
    pub fn decode_bit(&mut self, probs: &mut Vec<u16>, i: usize) -> (r: Result<u32, Error>)
        requires
            old(self).wf(),
            i < old(probs)@.len(),
            probs_ok(old(probs)@),
        ensures
            final(self).wf(),
            final(probs)@.len() == old(probs)@.len(),
            probs_ok(final(probs)@),
            match spec_decode_bit(old(self)@, old(probs)@[i as int]) {
                Some((bit, v, p)) => r == Ok::<u32, Error>(bit) && bit <= 1 && final(self)@ == v
                    && final(probs)@ == old(probs)@.update(i as int, p),
                None => r == Err::<u32, Error>(Error::UnexpectedEof) && final(self)@ == old(self)@
                    && final(probs)@ == old(probs)@,
            },
    {
        match self.normalize() {
            Ok(_) => (),
            Err(e) => {
                proof {
                    assert(final(probs)@ =~= old(probs)@);
                }
                return Err(e);
            },
        }
        let p = probs[i];
        let r0 = self.range;
        proof {
            lemma_bound_le_range(r0, p);
        }
        let bound = (self.range >> 11) * (p as u32);
        if self.code < bound {
            self.range = bound;
            let diff = 2048u16 - p;
            let inc = diff >> 5;
            assert(diff >> 5 <= 64 && p + (diff >> 5) <= 2047) by (bit_vector)
                requires
                    diff == 2048 - p && p <= 2047,
            ;
            probs.set(i, p + inc);
            proof {
                assert(self@ =~= spec_decode_bit(old(self)@, old(probs)@[i as int]).unwrap().1);
            }
            Ok(0)
        } else {
            self.range = self.range - bound;
            self.code = self.code - bound;
            assert(p >> 5 <= p) by (bit_vector);
            let dec = p >> 5;
            probs.set(i, p - dec);
            proof {
                assert(self@ =~= spec_decode_bit(old(self)@, old(probs)@[i as int]).unwrap().1);
            }
            Ok(1)
        }
    }

    /// Walk a binary tree of `size` adaptive probabilities rooted at
    /// `probs[off + 1]`, returning the decoded leaf index.
    pub fn decode_bit_tree(&mut self, probs: &mut Vec<u16>, off: usize, size: usize) -> (r: Result<
        u32,
        Error,
    >)
        requires
            old(self).wf(),
            size >= 2,
            size <= 512,
            off + size <= old(probs)@.len(),
            probs_ok(old(probs)@),
        ensures
            final(self).wf(),
            final(probs)@.len() == old(probs)@.len(),
            probs_ok(final(probs)@),
            forall|j: int|
                0 <= j < old(probs)@.len() && !(off <= j < off + size) ==> final(probs)@[j] == old(probs)@[j],
            r matches Ok(v) ==> v < size && spec_tree_walk(
                old(self)@,
                old(probs)@,
                off as int,
                size as int,
                1,
            ) == Some((v + size as int, final(self)@, final(probs)@)),
            r is Err ==> r == Err::<u32, Error>(Error::UnexpectedEof) && spec_tree_walk(
                old(self)@,
                old(probs)@,
                off as int,
                size as int,
                1,
            ) is None,
    {
        let plen = probs.len();
        let mut symbol: usize = 1;
        while symbol < size
            invariant
                self.wf(),
                1 <= symbol < 2 * size,
                size >= 2,
                size <= 512,
                off + size <= plen,
                probs@.len() == plen,
                probs@.len() == old(probs)@.len(),
                probs_ok(probs@),
                forall|j: int|
                    0 <= j < old(probs)@.len() && !(off <= j < off + size) ==> probs@[j] == old(probs)@[j],
                spec_tree_walk(old(self)@, old(probs)@, off as int, size as int, 1)
                    == spec_tree_walk(self@, probs@, off as int, size as int, symbol as int),
            decreases 2 * size - symbol,
        {
            let ghost pre = self@;
            let ghost pre_probs = probs@;
            let bit = match self.decode_bit(probs, off + symbol) {
                Ok(b) => b,
                Err(e) => {
                    return Err(e);
                },
            };
            proof {
                assert(probs@ =~= pre_probs.update(off + symbol, probs@[off + symbol]));
            }
            symbol = symbol * 2 + (bit as usize);
        }
        Ok((symbol - size) as u32)
    }

    /// Walk a binary tree as [`decode_bit_tree`] does, but assemble the
    /// decoded bits least-significant first.
    pub fn decode_reverse_bit_tree(&mut self, probs: &mut Vec<u16>, off: usize, size: usize) -> (r:
        Result<u32, Error>)
        requires
            old(self).wf(),
            size >= 2,
            size <= 64,
            off + size <= old(probs)@.len(),
            probs_ok(old(probs)@),
        ensures
            final(self).wf(),
            final(probs)@.len() == old(probs)@.len(),
            probs_ok(final(probs)@),
            forall|j: int|
                0 <= j < old(probs)@.len() && !(off <= j < off + size) ==> final(probs)@[j] == old(probs)@[j],
            r matches Ok(v) ==> v < 2 * size && spec_reverse_tree_walk(
                old(self)@,
                old(probs)@,
                off as int,
                size as int,
                1,
                1,
                0,
            ) == Some((v as int, final(self)@, final(probs)@)),
            r is Err ==> r == Err::<u32, Error>(Error::UnexpectedEof) && spec_reverse_tree_walk(
                old(self)@,
                old(probs)@,
                off as int,
                size as int,
                1,
                1,
                0,
            ) is None,
    {
        let plen = probs.len();
        let mut symbol: usize = 1;
        let mut weight: u32 = 1;
        let mut result: u32 = 0;
        while symbol < size
            invariant
                self.wf(),
                1 <= symbol < 2 * size,
                size >= 2,
                size <= 64,
                weight <= symbol,
                result < weight,
                off + size <= plen,
                probs@.len() == plen,
                probs@.len() == old(probs)@.len(),
                probs_ok(probs@),
                forall|j: int|
                    0 <= j < old(probs)@.len() && !(off <= j < off + size) ==> probs@[j] == old(probs)@[j],
                spec_reverse_tree_walk(old(self)@, old(probs)@, off as int, size as int, 1, 1, 0)
                    == spec_reverse_tree_walk(
                    self@,
                    probs@,
                    off as int,
                    size as int,
                    symbol as int,
                    weight as int,
                    result as int,
                ),
            decreases 2 * size - symbol,
        {
            let ghost pre_probs = probs@;
            let bit = match self.decode_bit(probs, off + symbol) {
                Ok(b) => b,
                Err(e) => {
                    return Err(e);
                },
            };
            proof {
                assert(probs@ =~= pre_probs.update(off + symbol, probs@[off + symbol]));
                assert(bit * weight == if bit == 1 {
                    weight as int
                } else {
                    0int
                }) by (nonlinear_arith)
                    requires
                        bit <= 1,
                ;
            }
            symbol = symbol * 2 + (bit as usize);
            if bit == 1 {
                result = result + weight;
            }
            weight = weight * 2;
        }
        Ok(result)
    }

    /// Decode `count` equiprobable bits, most significant first, exactly as
    /// [`spec_direct_bits`] states.
    #[verifier::rlimit(100)]
    pub fn decode_direct_bits(&mut self, count: usize) -> (r: Result<u32, Error>)
        requires
            old(self).wf(),
            count <= 30,
        ensures
            final(self).wf(),
            r matches Ok(v) ==> v < pow2int(count as int) && spec_direct_bits(
                old(self)@,
                count as int,
            ) == Some((v, final(self)@)),
            r is Err ==> r == Err::<u32, Error>(Error::UnexpectedEof) && spec_direct_bits(
                old(self)@,
                count as int,
            ) is None,
    {
        let mut result: u32 = 0;
        let mut i: usize = 0;
        while i < count
            invariant
                self.wf(),
                i <= count,
                count <= 30,
                result < pow2int(i as int),
                match spec_direct_bits(self@, count - i) {
                    Some((rest, vf)) => spec_direct_bits(old(self)@, count as int) == Some(
                        (((result * pow2int(count - i) + rest) as u32), vf),
                    ),
                    None => spec_direct_bits(old(self)@, count as int) is None,
                },
            decreases count - i,
        {
            let ghost pre = self@;
            let ghost k = count - i;
            match self.normalize() {
                Ok(_) => (),
                Err(e) => {
                    proof {
                        assert(spec_direct_bits(pre, k) is None);
                    }
                    return Err(e);
                },
            }
            self.range = self.range >> 1;
            let bit: u32 = if self.code < self.range || self.code - self.range >= 0x8000_0000 {
                0
            } else {
                1
            };
            if bit == 1 {
                self.code = self.code - self.range;
            }
            proof {
                lemma_pow2int_increases(i as int, 29);
                lemma_pow2int_increases(k - 1, 29);
                reveal_with_fuel(pow2int, 31);
                assert(pow2int(29) == 0x2000_0000);
                let sd = spec_direct_bit(pre);
                assert(sd matches Some(t) && bit == t.0 && self@ =~= t.1);
                lemma_direct_bits_bound(self@, k - 1);
                let rs = result as int;
                let b = bit as int;
                let p = pow2int(k - 1);
                assert(rs * (2 * p) + b * p == (rs * 2 + b) * p) by (nonlinear_arith);
                assert(spec_direct_bits(pre, k) == match spec_direct_bits(self@, k - 1) {
                    None => None,
                    Some((rest, vf)) => Some((((b * p + rest) as u32), vf)),
                });
            }
            result = result * 2 + bit;
            i = i + 1;
        }
        proof {
            lemma_pow2int_nonneg(count as int);
        }
        Ok(result)
    }
}

} // verus!

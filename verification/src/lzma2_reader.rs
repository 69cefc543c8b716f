//! The LZMA2 framing layer: a stream of self-describing chunks, each either
//! raw bytes or one LZMA-coded run, multiplexed with dictionary, state and
//! property resets, and closed by a zero control byte.

use vstd::prelude::*;

use crate::byte_reader::ByteReader;
use crate::decoder::spec_fresh_dec;
use crate::decoder::DecView;
use crate::decoder::LZMADecoder;
use crate::lz_decoder::LZDecoder;
use crate::lz_decoder::LzView;
use crate::lzma_reader::get_lc_lp_pb;
use crate::range_dec::RangeDecoder;
use crate::range_dec::RcView;
use crate::Error;

verus! {

/// Largest compressed payload an LZMA2 chunk can carry.
pub const COMPRESSED_SIZE_MAX: usize = 65536;

/// Largest uncompressed run an LZMA chunk can declare: `(0x1F << 16) + 0x10000`.
pub const UNCOMPRESSED_SIZE_MAX: usize = 0x200000;

/// The dictionary size the LZMA2 decoder allocates: rounded up to a multiple
/// of 16.
pub fn get_dict_size(dict_size: u64) -> (r: u64)
    requires
        dict_size <= crate::DICT_SIZE_MAX,
    ensures
        r == (((dict_size + 15) as u64) & !15u64),
        r % 16 == 0,
        dict_size <= r <= dict_size + 15,
{
    let sum = dict_size + 15;
    let r = sum & !15u64;
    assert((sum & !15u64) % 16 == 0 && sum - 15 <= (sum & !15u64) && (sum & !15u64) <= sum)
        by (bit_vector)
        requires
            sum >= 15,
    ;
    r
}

/// The memory-usage estimate in KiB for an LZMA2 decoder with the given
/// dictionary size: bookkeeping, the chunk buffer, and the window.
pub fn get_memory_usage(dict_size: u64) -> (r: u64)
    requires
        dict_size <= crate::DICT_SIZE_MAX,
    ensures
        r == 40 + 64 + (((dict_size + 15) as u64) & !15u64) / 1024,
{
    let dict = get_dict_size(dict_size);
    assert(dict / 1024 <= dict) by (nonlinear_arith);
    40 + (COMPRESSED_SIZE_MAX as u64) / 1024 + dict / 1024
}

/// Split a properties byte as LZMA2 requires: beyond the `.lzma` range check,
/// `lc + lp` may not exceed 4. Returns
/// `(props % 45, pb, lp, lc, 1 << (lc + lp))`.
pub fn get_props_pb_lp_lc_num_subdecoders(props: u8) -> (r: Result<
    (u32, u32, u32, u32, u32),
    Error,
>)
    ensures
        props > 224 ==> r == Err::<(u32, u32, u32, u32, u32), Error>(Error::InvalidInput),
        props <= 224 && crate::lzma_reader::spec_lc(props) + crate::lzma_reader::spec_lp(props) > 4
            ==> r == Err::<(u32, u32, u32, u32, u32), Error>(Error::InvalidInput),
        props <= 224 && crate::lzma_reader::spec_lc(props) + crate::lzma_reader::spec_lp(props)
            <= 4 ==> r is Ok,
        r matches Ok(t) ==> t.0 == props % 45 && t.1 == crate::lzma_reader::spec_pb(props) && t.2
            == crate::lzma_reader::spec_lp(props) && t.3 == crate::lzma_reader::spec_lc(props)
            && t.3 + t.2 <= 4 && t.4 == crate::range_dec::pow2int(
            crate::lzma_reader::spec_lc(props) + crate::lzma_reader::spec_lp(props),
        ),
{
    let (lc, lp, pb) = match get_lc_lp_pb(props) {
        Ok(t) => t,
        Err(e) => {
            return Err(e);
        },
    };
    if lc + lp > 4 {
        return Err(Error::InvalidInput);
    }
    let num = crate::decoder::get_num_sub_decoders(lc, lp);
    Ok(((props % 45) as u32, pb, lp, lc, num as u32))
}

/// When a chunk header parse must succeed: the byte sequence `s` (what the
/// framer has not consumed) starts with the end byte, a well-formed
/// uncompressed-chunk header, or a well-formed LZMA-chunk header whose resets
/// satisfy the flags (`ndr`: dictionary reset owed, `np`: properties owed,
/// `nsr`: state reset owed), whose properties byte is valid where present,
/// and whose compressed payload is fully present and primed with a zero
/// byte.
pub open spec fn spec_header_ok(s: Seq<u8>, ndr: bool, np: bool, nsr: bool) -> bool {
    s.len() > 0 && {
        let c = s[0];
        if c == 0 {
            true
        } else if c == 1 {
            s.len() >= 3
        } else if c == 2 {
            !ndr && s.len() >= 3
        } else if c <= 0x7F {
            false
        } else {
            let hdr: int = if c >= 0xC0 {
                6
            } else {
                5
            };
            &&& (c >= 0xE0 || !ndr)
            &&& (c >= 0xC0 || (!np && (c >= 0xA0 || !nsr)))
            &&& (c >= 0xC0 ==> s.len() >= 6 && s[5] <= 224 && crate::lzma_reader::spec_lc(s[5])
                + crate::lzma_reader::spec_lp(s[5]) <= 4)
            &&& s.len() >= 5
            &&& chunk_comp_size(s) >= 5
            &&& s.len() >= hdr + chunk_comp_size(s)
            &&& s[hdr] == 0
        }
    }
}

/// How many uncompressed bytes an LZMA chunk whose header starts the byte
/// sequence `s` declares.
pub open spec fn chunk_lzma_usize(s: Seq<u8>) -> int {
    (s[0] & 0x1F) * 0x10000 + s[1] * 256 + s[2] + 1
}

/// How many compressed bytes that chunk declares.
pub open spec fn chunk_comp_size(s: Seq<u8>) -> int {
    s[3] * 256 + s[4] + 1
}

/// A stream whose first chunk is one dictionary-resetting uncompressed chunk
/// that fits the caller's buffer and the window, followed by the end byte
/// (unless it fills the buffer exactly): the simplest stream shape, served
/// whole by a single read.
pub open spec fn spec_single_raw_chunk(s: Seq<u8>, len0: int, dict: int) -> bool {
    &&& s.len() >= 3
    &&& s[0] == 1
    &&& ({
        let cs = s[1] * 256 + s[2] + 1;
        &&& cs <= len0
        &&& cs <= dict
        &&& s.len() >= 3 + cs
        &&& (cs == len0 || (s.len() >= 4 + cs && s[3 + cs] == 0))
    })
}

/// A raw LZMA2 stream decoder (no container headers).
pub struct LZMA2Reader {
    inner: ByteReader,
    lz: LZDecoder,
    rc: RangeDecoder,
    lzma: LZMADecoder,
    uncompressed_size: usize,
    is_lzma_chunk: bool,
    need_dict_reset: bool,
    need_props: bool,
    need_state_reset: bool,
    end_reached: bool,
    error: Option<Error>,
}

impl LZMA2Reader {
    /// The framer invariant. While no error is recorded: the window is fully
    /// flushed between reads, and a finished chunk leaves no unread
    /// compressed byte, a zero coder word and no pending match copy.
    pub closed spec fn wf(self) -> bool {
        &&& self.inner.wf()
        &&& self.lz.wf()
        &&& self.rc.wf()
        &&& self.lzma.wf()
        &&& self.uncompressed_size <= UNCOMPRESSED_SIZE_MAX
        &&& self.error is None ==> self.lz@.start == self.lz@.pos
        &&& (self.error is None && self.uncompressed_size == 0) ==> (self.rc@.rest.len() == 0
            && self.rc@.code == 0 && self.lz@.pending_len == 0)
    }

    pub closed spec fn spec_error(self) -> Option<Error> {
        self.error
    }

    pub closed spec fn spec_end_reached(self) -> bool {
        self.end_reached
    }

    pub closed spec fn spec_need_props(self) -> bool {
        self.need_props
    }

    pub closed spec fn spec_need_dict_reset(self) -> bool {
        self.need_dict_reset
    }

    pub closed spec fn spec_need_state_reset(self) -> bool {
        self.need_state_reset
    }

    /// The dictionary window's mathematical state.
    pub closed spec fn spec_window(self) -> LzView {
        self.lz@
    }

    /// The range decoder's mathematical state.
    pub closed spec fn spec_rc(self) -> RcView {
        self.rc@
    }

    /// The LZMA state machine's mathematical state.
    pub closed spec fn spec_dec(self) -> DecView {
        self.lzma@
    }

    /// How many bytes of the current chunk are still owed to the caller.
    pub closed spec fn spec_chunk_left(self) -> int {
        self.uncompressed_size as int
    }

    /// The bytes the framer has not consumed yet.
    pub closed spec fn spec_remaining(self) -> Seq<u8> {
        self.inner.remaining()
    }

    /// A new LZMA2 decoder over `inner` with the given dictionary size and
    /// optional preset dictionary. With no (or an empty) preset dictionary
    /// the first chunk must reset the dictionary.
    pub fn new(inner: ByteReader, dict_size: u64, preset_dict: Option<&Vec<u8>>) -> (r:
        LZMA2Reader)
        requires
            inner.wf(),
            1 <= dict_size,
            dict_size + 15 <= usize::MAX,
        ensures
            r.wf(),
            r.spec_error() is None,
            !r.spec_end_reached(),
            r.spec_need_props(),
            r.spec_remaining() == inner.remaining(),
            match preset_dict {
                Some(p) => r.spec_need_dict_reset() == (p@.len() == 0),
                None => r.spec_need_dict_reset(),
            },
            r.spec_need_state_reset(),
            r.spec_chunk_left() == 0,
            r.spec_dec() == spec_fresh_dec(0, 0, 0),
            r.spec_rc().rest.len() == 0 && r.spec_rc().code == 0,
            r.spec_window().buf.len() == (((dict_size + 15) as u64) & !15u64),
            r.spec_window().limit == r.spec_window().buf.len(),
            r.spec_window().pending_len == 0,
            r.spec_window().start == r.spec_window().pos && r.spec_window().pos == r.spec_window().full,
            match preset_dict {
                Some(p) => r.spec_window().pos == (if p@.len() < (((dict_size + 15) as u64)
                    & !15u64) {
                    p@.len() as int
                } else {
                    (((dict_size + 15) as u64) & !15u64) as int
                }),
                None => r.spec_window().pos == 0,
            },
    {
        let has_preset = match preset_dict {
            Some(p) => p.len() > 0,
            None => false,
        };
        let dict = get_dict_size(dict_size);
        let lz = LZDecoder::new(dict as usize, preset_dict);
        let rc = RangeDecoder::new_buffer(COMPRESSED_SIZE_MAX);
        LZMA2Reader {
            inner,
            lz,
            rc,
            lzma: LZMADecoder::new(0, 0, 0),
            uncompressed_size: 0,
            is_lzma_chunk: false,
            need_dict_reset: !has_preset,
            need_props: true,
            need_state_reset: true,
            end_reached: false,
            error: None,
        }
    }

    /// Give the unread remainder of the byte source back.
    pub fn into_inner(self) -> (r: ByteReader)
        ensures
            r.remaining() == self.spec_remaining(),
            self.wf() ==> r.wf(),
    {
        self.inner
    }

    /// Look at the byte source without consuming it.
    pub fn get_ref(&self) -> (r: &ByteReader)
        ensures
            r.remaining() == self.spec_remaining(),
    {
        &self.inner
    }

    /// Borrow the byte source mutably; framing state is untouched.
    pub fn get_mut(&mut self) -> (r: &mut ByteReader)
        ensures
            r.remaining() == old(self).spec_remaining(),
            final(self).spec_remaining() == final(r).remaining(),
            final(self).spec_error() == old(self).spec_error(),
            final(self).spec_end_reached() == old(self).spec_end_reached(),
            old(self).wf() && final(r).wf() ==> final(self).wf(),
    {
        &mut self.inner
    }

    /// Read one byte of framing data.
    pub fn read_u8(&mut self) -> (r: Result<u8, Error>)
        requires
            old(self).wf(),
        ensures
            final(self).wf(),
            old(self).spec_remaining().len() == 0 ==> r == Err::<u8, Error>(Error::UnexpectedEof),
            old(self).spec_remaining().len() > 0 ==> r == Ok::<u8, Error>(
                old(self).spec_remaining()[0],
            ) && final(self).spec_remaining() == old(self).spec_remaining().skip(1),
    {
        self.inner.read_u8()
    }

    /// Read one big-endian 16-bit size field of framing data.
    pub fn read_u16_be(&mut self) -> (r: Result<u16, Error>)
        requires
            old(self).wf(),
        ensures
            final(self).wf(),
            old(self).spec_remaining().len() < 2 ==> r == Err::<u16, Error>(
                Error::UnexpectedEof,
            ),
            old(self).spec_remaining().len() >= 2 ==> r == Ok::<u16, Error>(
                (old(self).spec_remaining()[0] * 256 + old(self).spec_remaining()[1]) as u16,
            ) && final(self).spec_remaining() == old(self).spec_remaining().skip(2),
    {
        self.inner.read_u16_be()
    }

    /// Read and validate a properties byte, and rebuild the LZMA decoder
    /// around it.
    fn decode_props(&mut self) -> (r: Result<(), Error>)
        requires
            old(self).wf(),
        ensures
            final(self).wf(),
            final(self).lz == old(self).lz,
            final(self).rc == old(self).rc,
            final(self).error == old(self).error,
            final(self).uncompressed_size == old(self).uncompressed_size,
            final(self).end_reached == old(self).end_reached,
            final(self).is_lzma_chunk == old(self).is_lzma_chunk,
            final(self).need_props == old(self).need_props,
            final(self).need_dict_reset == old(self).need_dict_reset,
            final(self).need_state_reset == old(self).need_state_reset,
            old(self).spec_remaining().len() == 0 ==> r == Err::<(), Error>(Error::UnexpectedEof),
            old(self).spec_remaining().len() > 0 ==> ({
                let p = old(self).spec_remaining()[0];
                if p > 224 || crate::lzma_reader::spec_lc(p) + crate::lzma_reader::spec_lp(p) > 4 {
                    r == Err::<(), Error>(Error::InvalidInput)
                } else {
                    r == Ok::<(), Error>(()) && final(self).spec_remaining() == old(self).spec_remaining().skip(1)
                }
            }),
    {
        let props = match self.inner.read_u8() {
            Ok(p) => p,
            Err(e) => {
                return Err(e);
            },
        };
        let (lc, lp, pb) = match get_lc_lp_pb(props) {
            Ok(t) => t,
            Err(e) => {
                return Err(e);
            },
        };
        if lc + lp > 4 {
            return Err(Error::InvalidInput);
        }
        self.lzma = LZMADecoder::new(lc, lp, pb);
        Ok(())
    }

    /// Parse one chunk header, applying its resets and loading an LZMA
    /// chunk's compressed payload into the range decoder. The control byte
    /// decides everything: `0x00` ends the stream; `0x01`/`0x02` announce an
    /// uncompressed chunk (with and without dictionary reset); `0x03..=0x7F`
    /// are invalid; `0x80..=0xFF` announce an LZMA chunk whose top bits pick
    /// how much decoder state is reset first.
    #[verifier::rlimit(100)]
    fn decode_chunk_header(&mut self) -> (r: Result<(), Error>)
        requires
            old(self).wf(),
            old(self).error is None,
            !old(self).spec_end_reached(),
        ensures
            final(self).wf(),
            final(self).error is None,
            final(self).lz@.start == final(self).lz@.pos,
            final(self).lz@.pos == old(self).lz@.pos || final(self).lz@.pos == 0,
            final(self).lz@.buf.len() == old(self).lz@.buf.len(),
            r matches Ok(_) ==> final(self).spec_end_reached() || 1 <= final(self).uncompressed_size,
            (r is Ok) == spec_header_ok(
                old(self).spec_remaining(),
                old(self).spec_need_dict_reset(),
                old(self).spec_need_props(),
                old(self).spec_need_state_reset(),
            ),
            (r is Ok && old(self).spec_remaining().len() > 0 && old(self).spec_remaining()[0] == 1)
                ==> final(self).spec_window() == (LzView {
                buf: old(self).spec_window().buf.update(old(self).spec_window().buf.len() - 1, 0u8),
                start: 0,
                pos: 0,
                full: 0,
                limit: 0,
                ..old(self).spec_window()
            }) && final(self).spec_rc() == old(self).spec_rc() && final(self).spec_dec() == old(
                self).spec_dec() && final(self).spec_remaining() == old(self).spec_remaining().skip(
                3) && final(self).spec_window().pending_len == old(self).spec_window().pending_len,
            (r is Ok && old(self).spec_remaining().len() > 0 && old(self).spec_remaining()[0] == 2)
                ==> final(self).spec_window() == old(self).spec_window() && final(self).spec_rc()
                == old(self).spec_rc() && final(self).spec_dec() == old(self).spec_dec() && final(
                self).spec_remaining() == old(self).spec_remaining().skip(3),
            ({
                let s = old(self).spec_remaining();
                &&& s.len() == 0 ==> r == Err::<(), Error>(Error::UnexpectedEof)
                &&& (s.len() > 0 && s[0] == 0) ==> r == Ok::<(), Error>(())
                    && final(self).spec_end_reached()
                &&& (s.len() > 0 && s[0] != 0) ==> {
                    let c = s[0];
                    let resets = c >= 0xE0 || c == 0x01;
                    &&& (!resets && old(self).spec_need_dict_reset()) ==> r == Err::<(), Error>(
                        Error::InvalidInput,
                    )
                    &&& (!old(self).spec_need_dict_reset() && 0x03 <= c <= 0x7F) ==> r == Err::<
                        (),
                        Error,
                    >(Error::InvalidInput)
                    &&& (0x80 <= c < 0xC0 && old(self).spec_need_props() && s.len() >= 5 && !(
                    !resets && old(self).spec_need_dict_reset())) ==> r == Err::<(), Error>(
                        Error::InvalidInput,
                    )
                    &&& r matches Ok(_) ==> !final(self).spec_end_reached() && 1 <= final(self).uncompressed_size && (c >= 0x80 ==> final(self).is_lzma_chunk && s.len() >= 5
                        && final(self).uncompressed_size == chunk_lzma_usize(s) && final(self).spec_remaining().len() == s.len() - (if c >= 0xC0 {
                        6int
                    } else {
                        5int
                    }) - chunk_comp_size(s)) && (c < 0x80 ==> !final(self).is_lzma_chunk
                        && s.len() >= 3 && final(self).uncompressed_size == s[1] * 256 + s[2]
                        + 1)
                }
            }),
    {
        let ghost s = self.inner.remaining();
        let control = match self.inner.read_u8() {
            Ok(c) => c,
            Err(e) => {
                return Err(e);
            },
        };
        if control == 0x00 {
            self.end_reached = true;
            return Ok(());
        }
        if control >= 0xE0 || control == 0x01 {
            self.need_props = true;
            self.need_dict_reset = false;
            self.lz.reset();
        } else if self.need_dict_reset {
            return Err(Error::InvalidInput);
        }
        if control >= 0x80 {
            self.is_lzma_chunk = true;
            assert(control & 0x1F <= 0x1F) by (bit_vector);
            let hi = ((control & 0x1F) as usize) * 0x10000;
            let mid = match self.inner.read_u16_be() {
                Ok(v) => v,
                Err(e) => {
                    return Err(e);
                },
            };
            self.uncompressed_size = hi + (mid as usize) + 1;
            let cs = match self.inner.read_u16_be() {
                Ok(v) => v,
                Err(e) => {
                    return Err(e);
                },
            };
            let compressed_size = (cs as usize) + 1;
            if control >= 0xC0 {
                self.need_props = false;
                self.need_state_reset = false;
                match self.decode_props() {
                    Ok(_) => (),
                    Err(e) => {
                        return Err(e);
                    },
                }
            } else if self.need_props {
                return Err(Error::InvalidInput);
            } else if control >= 0xA0 {
                self.need_state_reset = false;
                self.lzma.reset();
            } else if self.need_state_reset {
                return Err(Error::InvalidInput);
            }
            match self.rc.prepare(&mut self.inner, compressed_size) {
                Ok(_) => (),
                Err(e) => {
                    return Err(e);
                },
            }
            proof {
                assert(s.skip(1)[0] == s[1] && s.skip(1)[1] == s[2] && s.skip(1).skip(2)[0] == s[3]
                    && s.skip(1).skip(2)[1] == s[4]);
            }
        } else if control > 0x02 {
            return Err(Error::InvalidInput);
        } else {
            self.is_lzma_chunk = false;
            let sz = match self.inner.read_u16_be() {
                Ok(v) => v,
                Err(e) => {
                    return Err(e);
                },
            };
            self.uncompressed_size = (sz as usize) + 1;
            self.need_state_reset = true;
            proof {
                assert(s.skip(1)[0] == s[1] && s.skip(1)[1] == s[2]);
            }
        }
        Ok(())
    }

    /// Decode into `buf`, filling it from the front. Returns how many bytes
    /// were produced; `Ok(0)` at (and ever after) the end-of-stream chunk.
    /// The first error is recorded and every later call returns it again.
    pub fn read(&mut self, buf: &mut Vec<u8>) -> (r: Result<usize, Error>)
        requires
            old(self).wf(),
        ensures
            final(self).wf(),
            final(buf)@.len() == old(buf)@.len(),
            old(self).spec_error() matches Some(e) ==> r == Err::<usize, Error>(e),
            r matches Err(e) ==> final(self).spec_error() == Some(e),
            r matches Ok(n) ==> n <= old(buf)@.len() && final(self).spec_error() is None && (forall|
                j: int,
            |
                n <= j < old(buf)@.len() ==> final(buf)@[j] == old(buf)@[j]),
            old(self).spec_error() is None && old(self).spec_end_reached() ==> r == Ok::<
                usize,
                Error,
            >(0usize),
            (old(self).spec_error() is None && !old(self).spec_end_reached() && old(
                self).spec_chunk_left() == 0 && old(buf)@.len() > 0 && spec_single_raw_chunk(
                old(self).spec_remaining(),
                old(buf)@.len() as int,
                old(self).spec_window().buf.len() as int,
            )) ==> ({
                let s = old(self).spec_remaining();
                let cs = s[1] * 256 + s[2] + 1;
                (r matches Ok(n) && n == cs) && final(buf)@.take(cs) == s.subrange(3, 3 + cs)
            }),
    {
        match self.error {
            Some(e) => {
                return Err(e);
            },
            None => (),
        }
        match self.read_decode(buf) {
            Ok(n) => Ok(n),
            Err(e) => {
                self.error = Some(e);
                Err(e)
            },
        }
    }

    /// The decode loop behind `read`: parse a header whenever a chunk is
    /// exhausted, run the chunk body into the window, flush to the caller,
    /// and demand a cleanly drained range decoder at every chunk end.
    fn read_decode(&mut self, buf: &mut Vec<u8>) -> (r: Result<usize, Error>)
        requires
            old(self).wf(),
            old(self).spec_error() is None,
        ensures
            final(buf)@.len() == old(buf)@.len(),
            r matches Ok(n) ==> final(self).wf() && final(self).spec_error() is None && n <= old(buf)@.len() && (forall|j: int|
                n <= j < old(buf)@.len() ==> final(buf)@[j] == old(buf)@[j]),
            r is Err ==> final(self).inner.wf() && final(self).lz.wf() && final(self).rc.wf()
                && final(self).lzma.wf() && final(self).uncompressed_size
                <= UNCOMPRESSED_SIZE_MAX && final(self).spec_error() is None,
            old(self).spec_end_reached() ==> r == Ok::<usize, Error>(0usize),
            (!old(self).spec_end_reached() && old(self).spec_chunk_left() == 0 && old(buf)@.len()
                > 0 && spec_single_raw_chunk(
                old(self).spec_remaining(),
                old(buf)@.len() as int,
                old(self).spec_window().buf.len() as int,
            )) ==> ({
                let s = old(self).spec_remaining();
                let cs = s[1] * 256 + s[2] + 1;
                (r matches Ok(n) && n == cs) && final(buf)@.take(cs) == s.subrange(3, 3 + cs)
            }),
    {
        if buf.len() == 0 {
            return Ok(0);
        }
        if self.end_reached {
            return Ok(0);
        }
        let buf_len = buf.len();
        let mut size: usize = 0;
        let mut len: usize = buf_len;
        let mut off: usize = 0;
        let ghost s0 = self.spec_remaining();
        let ghost raw_case = self.uncompressed_size == 0 && spec_single_raw_chunk(
            s0,
            buf_len as int,
            self.lz@.buf.len() as int,
        );
        let ghost cs0: int = if s0.len() >= 3 {
            s0[1] * 256 + s0[2] + 1
        } else {
            0
        };
        let ghost mut iterated = false;
        while len > 0
            invariant
                self.wf(),
                self.error is None,
                !self.end_reached,
                !old(self).spec_end_reached(),
                off + len == buf_len,
                size == off,
                buf@.len() == buf_len,
                buf_len == old(buf)@.len(),
                buf_len > 0,
                forall|j: int| off <= j < buf_len ==> buf@[j] == old(buf)@[j],
                s0 == old(self).spec_remaining(),
                raw_case == (old(self).spec_chunk_left() == 0 && spec_single_raw_chunk(
                    s0,
                    buf_len as int,
                    old(self).spec_window().buf.len() as int,
                )),
                s0.len() >= 3 ==> cs0 == s0[1] * 256 + s0[2] + 1,
                !iterated ==> self.spec_remaining() == s0 && self.lz@ == old(self).spec_window()
                    && self.rc@ == old(self).spec_rc() && self.uncompressed_size == old(
                    self).spec_chunk_left() && off == 0,
                raw_case && iterated ==> off == cs0 && buf@.take(cs0) == s0.subrange(3, 3 + cs0)
                    && self.uncompressed_size == 0 && self.spec_remaining() == s0.skip(3 + cs0)
                    && self.rc@.rest.len() == 0 && self.rc@.code == 0 && self.lz@.pending_len == 0,
            decreases len, self.lz@.pos,
        {
            let ghost was_first = !iterated;
            if self.uncompressed_size == 0 {
                match self.decode_chunk_header() {
                    Ok(_) => (),
                    Err(e) => {
                        return Err(e);
                    },
                }
                if self.end_reached {
                    return Ok(size);
                }
            }
            let copy_size_max: usize = if self.uncompressed_size < len {
                self.uncompressed_size
            } else {
                len
            };
            self.lz.set_limit(copy_size_max);
            if !self.is_lzma_chunk {
                match self.lz.copy_uncompressed(&mut self.inner, copy_size_max) {
                    Ok(_) => (),
                    Err(e) => {
                        return Err(e);
                    },
                }
            } else {
                match self.lzma.decode(&mut self.lz, &mut self.rc) {
                    Ok(_) => (),
                    Err(_) => {
                        return Err(Error::InvalidInput);
                    },
                }
            }
            let ghost lz_dec = self.lz@;
            let ghost off_at = off as int;
            let copied = self.lz.flush(buf, off);
            off = off + copied;
            len = len - copied;
            size = size + copied;
            self.uncompressed_size = self.uncompressed_size - copied;
            if self.uncompressed_size == 0 && (!self.rc.is_finished() || self.lz.has_pending()) {
                return Err(Error::InvalidData);
            }
            proof {
                if raw_case && was_first {
                    assert(s0.skip(3).take(cs0) =~= s0.subrange(3, 3 + cs0));
                    assert(s0.skip(3).skip(cs0) =~= s0.skip(3 + cs0));
                    assert forall|j: int| 0 <= j < cs0 implies buf@[j] == s0.subrange(3, 3 + cs0)[j] by {
                        assert(buf@[off_at + j] == lz_dec.buf[lz_dec.start + j]);
                    }
                    assert(buf@.take(cs0) =~= s0.subrange(3, 3 + cs0));
                }
                iterated = true;
            }
        }
        Ok(size)
    }
}

} // verus!

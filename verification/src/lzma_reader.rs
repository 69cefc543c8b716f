//! The legacy `.lzma` stream reader: a 13-byte header followed by one
//! continuous range-coded LZMA stream.
//!
//! The header holds one properties byte, a 4-byte little-endian dictionary
//! size and an 8-byte little-endian uncompressed size, where `u64::MAX`
//! means "unknown, rely on the end-of-stream marker".

use vstd::prelude::*;

use crate::byte_reader::ByteReader;
use crate::decoder::spec_fresh_dec;
use crate::decoder::DecView;
use crate::decoder::LZMADecoder;
use crate::lz_decoder::LZDecoder;
use crate::lz_decoder::LzView;
use crate::range_dec::RangeDecoder;
use crate::range_dec::RcView;
use crate::Error;
use crate::DICT_SIZE_MAX;

verus! {

/// `pb` as encoded in a properties byte.
pub open spec fn spec_pb(p: u8) -> int {
    (p / 45) as int
}

/// `lp` as encoded in a properties byte.
pub open spec fn spec_lp(p: u8) -> int {
    ((p % 45) / 9) as int
}

/// `lc` as encoded in a properties byte.
pub open spec fn spec_lc(p: u8) -> int {
    ((p % 45) % 9) as int
}

/// Split a properties byte into `(lc, lp, pb)`. A byte above
/// `(4 * 5 + 4) * 9 + 8 == 224` does not encode valid properties and is
/// rejected.
pub fn get_lc_lp_pb(props: u8) -> (r: Result<(u32, u32, u32), Error>)
    ensures
        props > 224 ==> r == Err::<(u32, u32, u32), Error>(Error::InvalidInput),
        props <= 224 ==> r == Ok::<(u32, u32, u32), Error>(
            ((spec_lc(props) as u32), (spec_lp(props) as u32), (spec_pb(props) as u32)),
        ) && spec_lc(props) <= 8 && spec_lp(props) <= 4 && spec_pb(props) <= 4,
    {
    if props > 224 {
        return Err(Error::InvalidInput);
    }
    let pb = props / 45;
    let rest = props % 45;
    let lp = rest / 9;
    let lc = rest % 9;
    Ok((lc as u32, lp as u32, pb as u32))
}

/// `max(d, 4096)` rounded up to the next multiple of 16: the window size a
/// `.lzma` decoder allocates for a requested dictionary size `d`.
pub open spec fn spec_dict_round(d: u64) -> u64 {
    (((if d < 4096 {
        4096u64
    } else {
        d
    }) + 15) as u64) & !15u64
}

/// The dictionary size the decoder actually allocates: at least 4096,
/// rounded up to a multiple of 16. Sizes above [`DICT_SIZE_MAX`] are
/// rejected.
pub fn get_dict_size(dict_size: u64) -> (r: Result<u64, Error>)
    ensures
        dict_size > DICT_SIZE_MAX ==> r == Err::<u64, Error>(Error::InvalidInput),
        dict_size <= DICT_SIZE_MAX ==> (r matches Ok(v) && v == spec_dict_round(dict_size) && v
            % 16 == 0 && dict_size <= v && v <= (if dict_size < 4096 {
            4096int
        } else {
            dict_size as int
        }) + 15 && 4096 <= v),
{
    if dict_size > DICT_SIZE_MAX {
        return Err(Error::InvalidInput);
    }
    let clamped: u64 = if dict_size < 4096 {
        4096
    } else {
        dict_size
    };
    let sum = clamped + 15;
    let r = sum & !15u64;
    assert((sum & !15u64) % 16 == 0 && sum - 15 <= (sum & !15u64) && (sum & !15u64) <= sum)
        by (bit_vector)
        requires
            sum >= 15,
    ;
    Ok(r)
}

/// The memory-usage estimate in KiB for a decoder with the given dictionary
/// size and literal-coder parameters:
/// `10 + round_up16(max(dict_size, 4096)) / 1024 + (2 * 0x300 << (lc + lp)) / 1024`.
pub fn get_memory_usage(dict_size: u64, lc: u64, lp: u64) -> (r: Result<u64, Error>)
    ensures
        lc > 8 || lp > 4 ==> r == Err::<u64, Error>(Error::InvalidInput),
        lc <= 8 && lp <= 4 && dict_size > DICT_SIZE_MAX ==> r == Err::<u64, Error>(
            Error::InvalidInput,
        ),
        lc <= 8 && lp <= 4 && dict_size <= DICT_SIZE_MAX ==> (r matches Ok(v) && v == 10 + (((((if
            dict_size < 4096 {
            4096u64
        } else {
            dict_size
        }) + 15) as u64) & !15u64) / 1024 + (0x600u64 << (lc + lp)) / 1024)),
{
    if lc > 8 || lp > 4 {
        return Err(Error::InvalidInput);
    }
    let dict = match get_dict_size(dict_size) {
        Ok(d) => d,
        Err(e) => {
            return Err(e);
        },
    };
    let sh = lc + lp;
    let shifted = 0x600u64 << sh;
    assert(0x600u64 << sh <= 0x600000) by (bit_vector)
        requires
            sh <= 12,
    ;
    assert(dict / 1024 <= dict) by (nonlinear_arith);
    Ok(10 + dict / 1024 + shifted / 1024)
}

/// The memory-usage estimate derived from a raw properties byte.
pub fn get_memory_usage_by_props(dict_size: u64, props_byte: u8) -> (r: Result<u64, Error>)
    ensures
        dict_size > DICT_SIZE_MAX ==> r == Err::<u64, Error>(Error::InvalidInput),
        props_byte > 224 && dict_size <= DICT_SIZE_MAX ==> r == Err::<u64, Error>(
            Error::InvalidInput,
        ),
        props_byte <= 224 && dict_size <= DICT_SIZE_MAX ==> (r matches Ok(v) && v == 10 + (((((if
            dict_size < 4096 {
            4096u64
        } else {
            dict_size
        }) + 15) as u64) & !15u64) / 1024 + (0x600u64 << (spec_lc(props_byte) + spec_lp(
            props_byte,
        ))) / 1024)),
{
    if dict_size > DICT_SIZE_MAX {
        return Err(Error::InvalidInput);
    }
    if props_byte > 224 {
        return Err(Error::InvalidInput);
    }
    let rest = props_byte % 45;
    let lp = rest / 9;
    let lc = rest % 9;
    get_memory_usage(dict_size, lc as u64, lp as u64)
}

/// The dictionary the decoder will size its window to: the rounded dictionary
/// size, shrunk to the uncompressed size when that is smaller and known.
/// The window a `.lzma` decoder sizes for a requested dictionary and a
/// (possibly unknown) uncompressed size: the rounded dictionary, shrunk to
/// the rounded uncompressed size when that is smaller and known.
pub open spec fn spec_decoder_dict(uncomp_size: u64, dict_size: u64) -> u64 {
    if uncomp_size <= u64::MAX / 2 && spec_dict_round(dict_size) > uncomp_size {
        spec_dict_round(uncomp_size)
    } else {
        spec_dict_round(dict_size)
    }
}

#[verifier::rlimit(60)]
pub fn get_decoder_dict_size(uncomp_size: u64, dict_size: u64) -> (r: Result<u64, Error>)
    ensures
        dict_size > DICT_SIZE_MAX ==> r == Err::<u64, Error>(Error::InvalidInput),
        dict_size <= DICT_SIZE_MAX ==> r == Ok::<u64, Error>(
            spec_decoder_dict(uncomp_size, dict_size),
        ),
        r matches Ok(v) ==> v % 16 == 0 && 4096 <= v && v <= (if dict_size < 4096 {
            4096int
        } else {
            dict_size as int
        }) + 15,
{
    let dict = match get_dict_size(dict_size) {
        Ok(d) => d,
        Err(e) => {
            return Err(e);
        },
    };
    proof {
        lemma_dict_round_fixpoint(dict);
    }
    if uncomp_size <= u64::MAX / 2 && dict > uncomp_size {
        let shrunk = match get_dict_size(uncomp_size) {
            Ok(d) => d,
            Err(e) => {
                return Err(e);
            },
        };
        proof {
            lemma_dict_round_fixpoint(shrunk);
        }
        get_dict_size(shrunk)
    } else {
        get_dict_size(dict)
    }
}

/// Rounding is idempotent: a value that is at least 4096 and a multiple of
/// 16 rounds to itself.
proof fn lemma_dict_round_fixpoint(v: u64)
    requires
        v >= 4096,
        v % 16 == 0,
        v <= DICT_SIZE_MAX,
    ensures
        spec_dict_round(v) == v,
{
    assert(v >= 4096 && v % 16 == 0 ==> ((v + 15) as u64) & !15u64 == v) by (bit_vector)
        requires
            v <= 0xFFFF_FFFF_FFFF_FFF0u64,
    ;
}

/// Read one byte from a byte source.
pub fn read_u8(reader: &mut ByteReader) -> (r: Result<u8, Error>)
    requires
        old(reader).wf(),
    ensures
        final(reader).wf(),
        old(reader).remaining().len() == 0 ==> r == Err::<u8, Error>(Error::UnexpectedEof),
        old(reader).remaining().len() > 0 ==> r == Ok::<u8, Error>(old(reader).remaining()[0])
            && final(reader).remaining() == old(reader).remaining().skip(1),
{
    reader.read_u8()
}

/// Read a big-endian 16-bit value from a byte source.
pub fn read_u16_be(reader: &mut ByteReader) -> (r: Result<u16, Error>)
    requires
        old(reader).wf(),
    ensures
        final(reader).wf(),
        old(reader).remaining().len() < 2 ==> r == Err::<u16, Error>(Error::UnexpectedEof),
        old(reader).remaining().len() >= 2 ==> r == Ok::<u16, Error>(
            (old(reader).remaining()[0] * 256 + old(reader).remaining()[1]) as u16,
        ) && final(reader).remaining() == old(reader).remaining().skip(2),
{
    reader.read_u16_be()
}

/// Read a little-endian 32-bit value from a byte source.
pub fn read_u32_le(reader: &mut ByteReader) -> (r: Result<u32, Error>)
    requires
        old(reader).wf(),
    ensures
        final(reader).wf(),
        old(reader).remaining().len() < 4 ==> r == Err::<u32, Error>(Error::UnexpectedEof),
        old(reader).remaining().len() >= 4 ==> (r matches Ok(v) && v == ByteReader::le_value(
            old(reader).remaining().take(4),
        ) && final(reader).remaining() == old(reader).remaining().skip(4)),
{
    reader.read_u32_le()
}

/// Read a little-endian 64-bit value from a byte source.
pub fn read_u64_le(reader: &mut ByteReader) -> (r: Result<u64, Error>)
    requires
        old(reader).wf(),
    ensures
        final(reader).wf(),
        old(reader).remaining().len() < 8 ==> r == Err::<u64, Error>(Error::UnexpectedEof),
        old(reader).remaining().len() >= 8 ==> (r matches Ok(v) && v == ByteReader::le_value(
            old(reader).remaining().take(8),
        ) && final(reader).remaining() == old(reader).remaining().skip(8)),
{
    reader.read_u64_le()
}

/// Why building a reader over the stream bytes `s` fails, if it does:
/// an oversized dictionary request, a window too large for this machine, or
/// a missing or non-zero range-coder prime byte.
pub open spec fn spec_stream_start_err(s: Seq<u8>, uncomp_size: u64, dict_size: u64) -> Option<
    Error,
> {
    if dict_size > DICT_SIZE_MAX {
        Some(Error::InvalidInput)
    } else if spec_decoder_dict(uncomp_size, dict_size) > usize::MAX {
        Some(Error::OutOfMemory)
    } else if s.len() == 0 {
        Some(Error::UnexpectedEof)
    } else if s[0] != 0 {
        Some(Error::InvalidInput)
    } else if s.len() < 5 {
        Some(Error::UnexpectedEof)
    } else {
        None
    }
}

/// What a freshly built reader over the stream bytes `s` looks like: nothing
/// decoded yet, a fresh state machine for the given properties, the range
/// coder primed from the five bytes after the header, and a flushed window
/// sized by [`spec_decoder_dict`].
pub open spec fn spec_reader_init(
    d: LZMAReader,
    s: Seq<u8>,
    uncomp_size: u64,
    lc: u32,
    lp: u32,
    pb: u32,
    dict_size: u64,
) -> bool {
    &&& d.wf()
    &&& d.spec_error() is None
    &&& !d.spec_end_reached()
    &&& d.spec_remaining_size() == uncomp_size
    &&& d.spec_dec() == spec_fresh_dec(lc, lp, pb)
    &&& d.spec_rc().range == 0xFFFF_FFFFu32
    &&& d.spec_rc().code == s[1] * 0x100_0000 + s[2] * 0x1_0000 + s[3] * 0x100 + s[4]
    &&& d.spec_rc().rest == s.skip(5)
    &&& d.spec_window().buf.len() == spec_decoder_dict(uncomp_size, dict_size)
    &&& d.spec_window().limit == d.spec_window().buf.len()
    &&& d.spec_window().pending_len == 0
    &&& d.spec_window().start == d.spec_window().pos
    &&& d.spec_window().pos == d.spec_window().full
}

/// The outcome of the first window slice a read carves out of the caller's
/// request: the window limit is advanced by the requested byte count (capped
/// by a known remaining size), and one decode invocation runs.
pub open spec fn spec_first_slice(
    d: DecView,
    w: LzView,
    v: RcView,
    remaining: u64,
    len0: int,
) -> crate::decoder::DecodeOutcome {
    let csm: int = if remaining <= u64::MAX / 2 && (remaining as int) < len0 {
        remaining as int
    } else {
        len0
    };
    let l1 = LzView {
        limit: if w.pos + csm <= w.buf.len() {
            w.pos + csm
        } else {
            w.buf.len() as int
        },
        ..w
    };
    crate::decoder::spec_decode(d, l1, v)
}

/// A `.lzma` stream decoder: one LZMA stream, no framing. It stops after
/// `remaining_size` bytes, or at the end-of-stream marker when the size is
/// unknown (`u64::MAX`).
pub struct LZMAReader {
    lz: LZDecoder,
    rc: RangeDecoder,
    lzma: LZMADecoder,
    end_reached: bool,
    relaxed_end_cond: bool,
    remaining_size: u64,
    error: Option<Error>,
}

impl LZMAReader {
    /// The reader invariant: every component holds its own invariant, and
    /// while no error is recorded the window is fully flushed.
    pub closed spec fn wf(self) -> bool {
        &&& self.lz.wf()
        &&& self.rc.wf()
        &&& self.lzma.wf()
        &&& self.relaxed_end_cond
        &&& self.error is None ==> self.lz@.start == self.lz@.pos
    }

    /// The first error this reader ran into, if any; later reads return it
    /// again.
    pub closed spec fn spec_error(self) -> Option<Error> {
        self.error
    }

    pub closed spec fn spec_end_reached(self) -> bool {
        self.end_reached
    }

    /// How many output bytes are still owed (`u64::MAX`: unknown, run to the
    /// end marker).
    pub closed spec fn spec_remaining_size(self) -> u64 {
        self.remaining_size
    }

    /// The dictionary window's mathematical state.
    pub closed spec fn spec_window(self) -> LzView {
        self.lz@
    }

    /// The range decoder's mathematical state.
    pub closed spec fn spec_rc(self) -> RcView {
        self.rc@
    }

    /// The LZMA state machine's mathematical state.
    pub closed spec fn spec_dec(self) -> DecView {
        self.lzma@
    }

    /// Build a reader from explicit `(lc, lp, pb)` properties. The window
    /// gets `max(dict_size, 4096)` rounded up to a multiple of 16, shrunk to
    /// the uncompressed size when that is smaller and known; the range coder
    /// is primed from the head of the stream.
    pub fn new(
        reader: ByteReader,
        uncomp_size: u64,
        lc: u32,
        lp: u32,
        pb: u32,
        dict_size: u64,
        preset_dict: Option<&Vec<u8>>,
    ) -> (r: Result<LZMAReader, Error>)
        requires
            reader.wf(),
        ensures
            lc > 8 || lp > 4 || pb > 4 ==> r == Err::<LZMAReader, Error>(Error::InvalidInput),
            lc <= 8 && lp <= 4 && pb <= 4 ==> match spec_stream_start_err(
                reader.remaining(),
                uncomp_size,
                dict_size,
            ) {
                Some(e) => r == Err::<LZMAReader, Error>(e),
                None => r matches Ok(d) && spec_reader_init(
                    d,
                    reader.remaining(),
                    uncomp_size,
                    lc,
                    lp,
                    pb,
                    dict_size,
                ) && (preset_dict is None ==> d.spec_window().pos == 0),
            },
            r matches Ok(d) ==> d.wf() && d.spec_error() is None,
    {
        if lc > 8 || lp > 4 || pb > 4 {
            return Err(Error::InvalidInput);
        }
        let mut dict = match get_dict_size(dict_size) {
            Ok(d) => d,
            Err(e) => {
                return Err(e);
            },
        };
        if uncomp_size <= u64::MAX / 2 && dict > uncomp_size {
            dict = match get_dict_size(uncomp_size) {
                Ok(d) => d,
                Err(e) => {
                    return Err(e);
                },
            };
        }
        if dict > usize::MAX as u64 {
            return Err(Error::OutOfMemory);
        }
        let rc = match RangeDecoder::new_stream(reader) {
            Ok(rc) => rc,
            Err(e) => {
                return Err(e);
            },
        };
        let lz = LZDecoder::new(dict as usize, preset_dict);
        let lzma = LZMADecoder::new(lc, lp, pb);
        Ok(
            LZMAReader {
                lz,
                rc,
                lzma,
                end_reached: false,
                relaxed_end_cond: true,
                remaining_size: uncomp_size,
                error: None,
            },
        )
    }

    /// Build a reader from a raw properties byte instead of split
    /// properties.
    pub fn new_with_props(
        reader: ByteReader,
        uncomp_size: u64,
        props: u8,
        dict_size: u64,
        preset_dict: Option<&Vec<u8>>,
    ) -> (r: Result<LZMAReader, Error>)
        requires
            reader.wf(),
        ensures
            props > 224 ==> r == Err::<LZMAReader, Error>(Error::InvalidInput),
            props <= 224 ==> match spec_stream_start_err(
                reader.remaining(),
                uncomp_size,
                dict_size,
            ) {
                Some(e) => r == Err::<LZMAReader, Error>(e),
                None => r matches Ok(d) && spec_reader_init(
                    d,
                    reader.remaining(),
                    uncomp_size,
                    spec_lc(props) as u32,
                    spec_lp(props) as u32,
                    spec_pb(props) as u32,
                    dict_size,
                ) && (preset_dict is None ==> d.spec_window().pos == 0),
            },
            r matches Ok(d) ==> d.wf() && d.spec_error() is None,
    {
        let (lc, lp, pb) = match get_lc_lp_pb(props) {
            Ok(t) => t,
            Err(e) => {
                return Err(e);
            },
        };
        Self::new(reader, uncomp_size, lc, lp, pb, dict_size, preset_dict)
    }

    /// Parse a `.lzma` header eagerly and build the reader, refusing
    /// configurations whose estimated memory use exceeds `mem_limit_kb`. The
    /// header holds the properties byte, a 4-byte little-endian dictionary
    /// size and an 8-byte little-endian uncompressed size; the stream follows
    /// it.
    pub fn new_mem_limit(
        reader: ByteReader,
        mem_limit_kb: u64,
        preset_dict: Option<&Vec<u8>>,
    ) -> (r: Result<LZMAReader, Error>)
        requires
            reader.wf(),
        ensures
            r matches Ok(d) ==> d.wf() && d.spec_error() is None,
            ({
                let s = reader.remaining();
                if s.len() < 13 {
                    r == Err::<LZMAReader, Error>(Error::UnexpectedEof)
                } else {
                    let props = s[0];
                    let hdr_dict = ByteReader::le_value(s.skip(1).take(4)) as u64;
                    let hdr_uncomp = ByteReader::le_value(s.skip(5).take(8)) as u64;
                    if props > 224 {
                        r == Err::<LZMAReader, Error>(Error::InvalidInput)
                    } else if mem_limit_kb < 10 + spec_dict_round(hdr_dict) / 1024 + (0x600u64 << (
                    spec_lc(props) + spec_lp(props))) / 1024 {
                        r == Err::<LZMAReader, Error>(Error::OutOfMemory)
                    } else {
                        match spec_stream_start_err(s.skip(13), hdr_uncomp, hdr_dict) {
                            Some(e) => r == Err::<LZMAReader, Error>(e),
                            None => r matches Ok(d) && spec_reader_init(
                                d,
                                s.skip(13),
                                hdr_uncomp,
                                spec_lc(props) as u32,
                                spec_lp(props) as u32,
                                spec_pb(props) as u32,
                                hdr_dict,
                            ) && (preset_dict is None ==> d.spec_window().pos == 0),
                        }
                    }
                }
            }),
    {
        let mut reader = reader;
        let ghost old_remaining = reader.remaining();
        let props = match reader.read_u8() {
            Ok(b) => b,
            Err(e) => {
                return Err(e);
            },
        };
        let dict_size_raw = match reader.read_u32_le() {
            Ok(v) => v,
            Err(e) => {
                return Err(e);
            },
        };
        let dict_size = dict_size_raw as u64;
        let uncomp_size = match reader.read_u64_le() {
            Ok(v) => v,
            Err(e) => {
                return Err(e);
            },
        };
        let need_kb = match get_memory_usage_by_props(dict_size, props) {
            Ok(v) => v,
            Err(e) => {
                return Err(e);
            },
        };
        if mem_limit_kb < need_kb {
            return Err(Error::OutOfMemory);
        }
        proof {
            assert(old_remaining.skip(1).skip(4) =~= old_remaining.skip(5));
            assert(old_remaining.skip(5).skip(8) =~= old_remaining.skip(13));
            assert(reader.remaining() =~= old_remaining.skip(13));
            assert(dict_size == ByteReader::le_value(old_remaining.skip(1).take(4)) as u64);
            assert(uncomp_size == ByteReader::le_value(old_remaining.skip(5).take(8)) as u64);
        }
        Self::new_with_props(reader, uncomp_size, props, dict_size, preset_dict)
    }

    /// Decode into `buf`, filling it from the front. Returns how many bytes
    /// were produced; `Ok(0)` exactly at (and after) the clean end of the
    /// stream. The first error is recorded and every later call returns it
    /// again.
    pub fn read(&mut self, buf: &mut Vec<u8>) -> (r: Result<usize, Error>)
        requires
            old(self).wf(),
        ensures
            final(self).wf(),
            final(buf)@.len() == old(buf)@.len(),
            old(self).spec_error() matches Some(e) ==> r == Err::<usize, Error>(e),
            r matches Err(e) ==> final(self).spec_error() == Some(e),
            r matches Ok(n) ==> n <= old(buf)@.len() && final(self).spec_error() is None && (forall|
                j: int,
            |
                n <= j < old(buf)@.len() ==> final(buf)@[j] == old(buf)@[j]),
            old(self).spec_error() is None && old(self).spec_end_reached() ==> r == Ok::<
                usize,
                Error,
            >(0usize),
            (old(self).spec_error() is None && !old(self).spec_end_reached() && old(buf)@.len()
                > 0) ==> match spec_first_slice(
                old(self).spec_dec(),
                old(self).spec_window(),
                old(self).spec_rc(),
                old(self).spec_remaining_size(),
                old(buf)@.len() as int,
            ) {
                crate::decoder::DecodeOutcome::Done { d: dv, lz: lv, rc: rv } => (lv.pos - lv.start
                    == old(buf)@.len() && lv.pending_len == 0) ==> ((r matches Ok(n) && n == old(
                    buf)@.len()) && final(buf)@ == lv.buf.subrange(lv.start, lv.pos) && final(
                    self).spec_dec() == dv && final(self).spec_rc() == rv),
                _ => true,
            },
    {
        match self.error {
            Some(e) => {
                return Err(e);
            },
            None => (),
        }
        match self.read_decode(buf) {
            Ok(n) => Ok(n),
            Err(e) => {
                self.error = Some(e);
                Err(e)
            },
        }
    }

    /// The decode loop behind `read`: slice the caller's buffer into window
    /// limits, run the LZMA state machine, and flush each slice out.
    #[verifier::rlimit(100)]
    fn read_decode(&mut self, buf: &mut Vec<u8>) -> (r: Result<usize, Error>)
        requires
            old(self).wf(),
            old(self).spec_error() is None,
        ensures
            final(buf)@.len() == old(buf)@.len(),
            r matches Ok(n) ==> final(self).wf() && final(self).spec_error() is None && n <= old(buf)@.len() && (forall|j: int|
                n <= j < old(buf)@.len() ==> final(buf)@[j] == old(buf)@[j]),
            r is Err ==> final(self).lz.wf() && final(self).rc.wf() && final(self).lzma.wf()
                && final(self).relaxed_end_cond && final(self).spec_error() is None,
            old(self).spec_end_reached() ==> r == Ok::<usize, Error>(0usize),
            (!old(self).spec_end_reached() && old(buf)@.len() > 0) ==> match spec_first_slice(
                old(self).spec_dec(),
                old(self).spec_window(),
                old(self).spec_rc(),
                old(self).spec_remaining_size(),
                old(buf)@.len() as int,
            ) {
                crate::decoder::DecodeOutcome::Done { d: dv, lz: lv, rc: rv } => (lv.pos - lv.start
                    == old(buf)@.len() && lv.pending_len == 0) ==> ((r matches Ok(n) && n == old(buf)@.len()) && final(buf)@ == lv.buf.subrange(lv.start, lv.pos) && final(self).spec_dec() == dv && final(self).spec_rc() == rv),
                _ => true,
            },
    {
        if buf.len() == 0 {
            return Ok(0);
        }
        if self.end_reached {
            return Ok(0);
        }
        let buf_len = buf.len();
        let mut size: usize = 0;
        let mut len: usize = buf_len;
        let mut off: usize = 0;
        let ghost mut iterated = false;
        while len > 0
            invariant
                self.lz.wf(),
                self.rc.wf(),
                self.lzma.wf(),
                self.relaxed_end_cond,
                self.error is None,
                self.lz@.start == self.lz@.pos,
                !self.end_reached,
                off + len == buf_len,
                size == off,
                buf@.len() == buf_len,
                buf_len == old(buf)@.len(),
                buf_len > 0,
                !old(self).spec_end_reached(),
                forall|j: int| off <= j < buf_len ==> buf@[j] == old(buf)@[j],
                !iterated ==> self.lzma@ == old(self).spec_dec() && self.rc@ == old(self).spec_rc()
                    && self.lz@ == old(self).spec_window() && self.remaining_size == old(self).spec_remaining_size() && off == 0,
                match spec_first_slice(
                    old(self).spec_dec(),
                    old(self).spec_window(),
                    old(self).spec_rc(),
                    old(self).spec_remaining_size(),
                    buf_len as int,
                ) {
                    crate::decoder::DecodeOutcome::Done { d: dv, lz: lv, rc: rv } => (lv.pos
                        - lv.start == buf_len && lv.pending_len == 0 && iterated) ==> (off
                        == buf_len && buf@ == lv.buf.subrange(lv.start, lv.pos) && self.lzma@ == dv
                        && self.rc@ == rv),
                    _ => true,
                },
            decreases len, self.lz@.pos,
        {
            let ghost was_first = !iterated;
            let mut copy_size_max: usize = len;
            if self.remaining_size <= u64::MAX / 2 && self.remaining_size < len as u64 {
                copy_size_max = self.remaining_size as usize;
            }
            self.lz.set_limit(copy_size_max);
            let ghost dec_pre = self.lzma@;
            let ghost lz_limited = self.lz@;
            let ghost rc_pre = self.rc@;
            match self.lzma.decode(&mut self.lz, &mut self.rc) {
                Ok(_) => (),
                Err(e) => {
                    if self.remaining_size != u64::MAX || !self.lzma.end_marker_detected() {
                        return Err(e);
                    }
                    self.end_reached = true;
                    match self.rc.normalize() {
                        Ok(_) => (),
                        Err(e2) => {
                            return Err(e2);
                        },
                    }
                },
            }
            let ghost lz_dec = self.lz@;
            let ghost off_at = off as int;
            let copied = self.lz.flush(buf, off);
            off = off + copied;
            len = len - copied;
            size = size + copied;
            if self.remaining_size <= u64::MAX / 2 {
                self.remaining_size = self.remaining_size - copied as u64;
                if self.remaining_size == 0 {
                    self.end_reached = true;
                }
            }
            proof {
                if was_first {
                    assert(spec_first_slice(
                        old(self).spec_dec(),
                        old(self).spec_window(),
                        old(self).spec_rc(),
                        old(self).spec_remaining_size(),
                        buf_len as int,
                    ) == crate::decoder::spec_decode(dec_pre, lz_limited, rc_pre));
                    match crate::decoder::spec_decode(dec_pre, lz_limited, rc_pre) {
                        crate::decoder::DecodeOutcome::Done { d: dv, lz: lv, rc: rv } => {
                            assert(lz_dec == lv && self.lzma@ == dv && self.rc@ == rv);
                            if lv.pos - lv.start == buf_len && lv.pending_len == 0 {
                                assert forall|j: int| 0 <= j < buf_len implies buf@[j] == lv.buf[lv.start
                                    + j] by {
                                    assert(buf@[off_at + j] == lz_dec.buf[lz_dec.start + j]);
                                }
                                assert(buf@ =~= lv.buf.subrange(lv.start, lv.pos));
                            }
                        },
                        _ => {},
                    }
                }
                iterated = true;
            }
            if self.end_reached {
                if self.lz.has_pending() || (!self.relaxed_end_cond
                    && !self.rc.is_stream_finished()) {
                    return Err(Error::InvalidData);
                }
                return Ok(size);
            }
        }
        Ok(size)
    }
}

} // verus!

//! The LZMA literal/match state machine.
//!
//! An [`LZMADecoder`] owns every adaptive probability table of the format,
//! the four most recent match distances and the 12-valued coder state. Its
//! `decode` drives the range decoder until the window's `limit` is reached,
//! emitting literals and match copies into the window. All tables are kept
//! flattened (`is_match[state][pos_state]` lives at `state * 16 + pos_state`)
//! so each adaptive bit is decoded against one vector index.

use vstd::prelude::*;

use crate::lz_decoder::dict_byte;
use crate::lz_decoder::lemma_repeat_ok_is_apply;
use crate::lz_decoder::spec_apply_repeat;
use crate::lz_decoder::spec_put_byte;
use crate::lz_decoder::LZDecoder;
use crate::lz_decoder::LzView;
use crate::probs_ok;
use crate::range_dec::pow2int;
use crate::range_dec::spec_decode_bit;
use crate::range_dec::spec_direct_bits;
use crate::range_dec::spec_normalize;
use crate::range_dec::spec_reverse_tree_walk;
use crate::range_dec::spec_tree_walk;
use crate::range_dec::RangeDecoder;
use crate::range_dec::RcView;
use crate::state::State;
use crate::Error;

verus! {

/// Shortest match the format can encode.
pub const MATCH_LEN_MIN: usize = 2;

/// Longest match the format can encode: `2 + 8 + 8 + 256 - 1`.
pub const MATCH_LEN_MAX: usize = 273;

/// How many sub-decoders a literal coder with the given `lc`/`lp` uses:
/// `1 << (lc + lp)`.
pub fn get_num_sub_decoders(lc: u32, lp: u32) -> (n: usize)
    requires
        lc <= 8,
        lp <= 4,
    ensures
        n == pow2int((lc + lp) as int),
        n >= 1,
        n <= 4096,
{
    let mut n: usize = 1;
    let mut i: u32 = 0;
    while i < lc + lp
        invariant
            i <= lc + lp,
            lc + lp <= 12,
            n == pow2int(i as int),
            n <= 4096,
        decreases lc + lp - i,
    {
        proof {
            crate::range_dec::lemma_pow2int_increases(i as int + 1, 12);
            reveal_with_fuel(pow2int, 13);
        }
        n = n * 2;
        i = i + 1;
    }
    proof {
        crate::range_dec::lemma_pow2int_nonneg((lc + lp) as int);
    }
    n
}

/// A table of `n` probabilities, all at the initial estimate, as a sequence.
pub open spec fn all_init(n: nat) -> Seq<u16> {
    Seq::new(n, |i: int| 1024u16)
}

/// A vector of `n` probabilities, all at the initial estimate
/// [`crate::PROB_INIT`].
fn new_probs(n: usize) -> (v: Vec<u16>)
    ensures
        v@ == all_init(n as nat),
        v@.len() == n,
        forall|i: int| 0 <= i < n ==> v@[i] == 1024,
        probs_ok(v@),
{
    let mut v: Vec<u16> = Vec::new();
    let mut i: usize = 0;
    while i < n
        invariant
            v@.len() == i,
            i <= n,
            forall|j: int| 0 <= j < i ==> v@[j] == 1024,
        decreases n - i,
    {
        v.push(crate::PROB_INIT);
        i = i + 1;
    }
    proof {
        assert(v@ =~= all_init(n as nat));
    }
    v
}

/// The mathematical state of a length coder: its four probability tables.
#[verifier::ext_equal]
pub struct LenView {
    pub choice: Seq<u16>,
    pub low: Seq<u16>,
    pub mid: Seq<u16>,
    pub high: Seq<u16>,
}

/// A freshly reset length coder: every probability at the initial estimate.
pub open spec fn spec_fresh_len() -> LenView {
    LenView { choice: all_init(2), low: all_init(128), mid: all_init(128), high: all_init(256) }
}

/// What one length decode computes, mirroring §4.C.4 of the format: the
/// first choice bit selects the `low` tree (lengths 2..=9), the second the
/// `mid` tree (10..=17) or the shared `high` tree (18..=273). `None` when
/// the byte source runs out mid-symbol.
pub open spec fn spec_len_decode(v: RcView, lc: LenView, pos_state: int) -> Option<
    (u32, RcView, LenView),
> {
    match spec_decode_bit(v, lc.choice[0]) {
        None => None,
        Some((b0, v1, p0)) => {
            let lc1 = LenView { choice: lc.choice.update(0, p0), ..lc };
            if b0 == 0 {
                match spec_tree_walk(v1, lc1.low, pos_state * 8, 8, 1) {
                    None => None,
                    Some((sym, v2, low2)) => Some(
                        (((sym - 8 + 2) as u32), v2, LenView { low: low2, ..lc1 }),
                    ),
                }
            } else {
                match spec_decode_bit(v1, lc1.choice[1]) {
                    None => None,
                    Some((b1, v2, p1)) => {
                        let lc2 = LenView { choice: lc1.choice.update(1, p1), ..lc1 };
                        if b1 == 0 {
                            match spec_tree_walk(v2, lc2.mid, pos_state * 8, 8, 1) {
                                None => None,
                                Some((sym, v3, mid3)) => Some(
                                    (((sym - 8 + 10) as u32), v3, LenView { mid: mid3, ..lc2 }),
                                ),
                            }
                        } else {
                            match spec_tree_walk(v2, lc2.high, 0, 256, 1) {
                                None => None,
                                Some((sym, v3, high3)) => Some(
                                    (((sym - 256 + 18) as u32), v3, LenView { high: high3, ..lc2 }),
                                ),
                            }
                        }
                    },
                }
            }
        },
    }
}

/// The three-tier match-length coder: an eight-leaf `low` tree per position
/// state, an eight-leaf `mid` tree per position state, and one shared
/// 256-leaf `high` tree.
pub struct LengthCoder {
    choice: Vec<u16>,
    low: Vec<u16>,
    mid: Vec<u16>,
    high: Vec<u16>,
}

impl LengthCoder {
    pub closed spec fn view(&self) -> LenView {
        LenView { choice: self.choice@, low: self.low@, mid: self.mid@, high: self.high@ }
    }

    pub closed spec fn wf(self) -> bool {
        &&& self.choice@.len() == 2 && probs_ok(self.choice@)
        &&& self.low@.len() == 128 && probs_ok(self.low@)
        &&& self.mid@.len() == 128 && probs_ok(self.mid@)
        &&& self.high@.len() == 256 && probs_ok(self.high@)
    }

    pub fn new() -> (r: LengthCoder)
        ensures
            r.wf(),
            r@ == spec_fresh_len(),
    {
        LengthCoder {
            choice: new_probs(2),
            low: new_probs(128),
            mid: new_probs(128),
            high: new_probs(256),
        }
    }

    /// Return every probability to the initial estimate.
    pub fn reset(&mut self)
        ensures
            final(self).wf(),
            final(self)@ == spec_fresh_len(),
    {
        self.choice = new_probs(2);
        self.low = new_probs(128);
        self.mid = new_probs(128);
        self.high = new_probs(256);
    }

    /// Decode one match length, exactly as [`spec_len_decode`] states: the
    /// `low` tree covers `[2, 9]`, the `mid` tree `[10, 17]` and the `high`
    /// tree `[18, 273]`.
    pub fn decode(&mut self, pos_state: usize, rc: &mut RangeDecoder) -> (r: Result<u32, Error>)
        requires
            old(self).wf(),
            old(rc).wf(),
            pos_state < 16,
        ensures
            final(self).wf(),
            final(rc).wf(),
            match spec_len_decode(old(rc)@, old(self)@, pos_state as int) {
                Some((len, v2, lv2)) => r == Ok::<u32, Error>(len) && final(rc)@ == v2 && final(self)@ == lv2 && 2 <= len <= 273,
                None => r == Err::<u32, Error>(Error::UnexpectedEof),
            },
            r matches Ok(len) ==> 2 <= len <= 273,
    {
        let b0 = match rc.decode_bit(&mut self.choice, 0) {
            Ok(b) => b,
            Err(e) => {
                return Err(e);
            },
        };
        if b0 == 0 {
            let v = match rc.decode_bit_tree(&mut self.low, pos_state * 8, 8) {
                Ok(v) => v,
                Err(e) => {
                    return Err(e);
                },
            };
            return Ok(v + 2);
        }
        let b1 = match rc.decode_bit(&mut self.choice, 1) {
            Ok(b) => b,
            Err(e) => {
                return Err(e);
            },
        };
        if b1 == 0 {
            let v = match rc.decode_bit_tree(&mut self.mid, pos_state * 8, 8) {
                Ok(v) => v,
                Err(e) => {
                    return Err(e);
                },
            };
            return Ok(v + 10);
        }
        let v = match rc.decode_bit_tree(&mut self.high, 0, 256) {
            Ok(v) => v,
            Err(e) => {
                return Err(e);
            },
        };
        Ok(v + 18)
    }
}

/// Where slot `s` of the shared special-distance table begins, and how many
/// probabilities its reverse tree holds (`1 << ((s >> 1) - 1)`).
pub open spec fn spec_dist_special_slice(slot: int) -> (int, int) {
    if slot == 4 {
        (0, 2)
    } else if slot == 5 {
        (2, 2)
    } else if slot == 6 {
        (4, 4)
    } else if slot == 7 {
        (8, 4)
    } else if slot == 8 {
        (12, 8)
    } else if slot == 9 {
        (20, 8)
    } else if slot == 10 {
        (28, 16)
    } else if slot == 11 {
        (44, 16)
    } else if slot == 12 {
        (60, 32)
    } else {
        (92, 32)
    }
}

fn dist_special_slice(slot: usize) -> (r: (usize, usize))
    requires
        4 <= slot < 14,
    ensures
        r.0 == spec_dist_special_slice(slot as int).0,
        r.1 == spec_dist_special_slice(slot as int).1,
        r.0 + r.1 <= 124,
        2 <= r.1 <= 64,
{
    match slot {
        4 => (0, 2),
        5 => (2, 2),
        6 => (4, 4),
        7 => (8, 4),
        8 => (12, 8),
        9 => (20, 8),
        10 => (28, 16),
        11 => (44, 16),
        12 => (60, 32),
        _ => (92, 32),
    }
}

/// The full LZMA decoder: coder state, recent distances and every adaptive
/// probability table.
pub struct LZMADecoder {
    lc: u32,
    lp: u32,
    pb: u32,
    state: State,
    rep0: i64,
    rep1: i64,
    rep2: i64,
    rep3: i64,
    is_match: Vec<u16>,
    is_rep: Vec<u16>,
    is_rep0: Vec<u16>,
    is_rep1: Vec<u16>,
    is_rep2: Vec<u16>,
    is_rep0_long: Vec<u16>,
    dist_slots: Vec<u16>,
    dist_special: Vec<u16>,
    dist_align: Vec<u16>,
    match_len: LengthCoder,
    rep_len: LengthCoder,
    literal_probs: Vec<u16>,
}

/// A recent-distance slot holds `distance - 1`, or `-1` once the end marker
/// was seen.
pub open spec fn rep_ok(r: i64) -> bool {
    -1 <= r < 0xFFFF_FFFF
}

/// The mathematical state of an LZMA decoder: the properties, the coder
/// state, the four most recent distances and every probability table.
#[verifier::ext_equal]
pub struct DecView {
    pub lc: u32,
    pub lp: u32,
    pub pb: u32,
    pub state: int,
    pub rep0: int,
    pub rep1: int,
    pub rep2: int,
    pub rep3: int,
    pub is_match: Seq<u16>,
    pub is_rep: Seq<u16>,
    pub is_rep0: Seq<u16>,
    pub is_rep1: Seq<u16>,
    pub is_rep2: Seq<u16>,
    pub is_rep0_long: Seq<u16>,
    pub dist_slots: Seq<u16>,
    pub dist_special: Seq<u16>,
    pub dist_align: Seq<u16>,
    pub match_len: LenView,
    pub rep_len: LenView,
    pub literal_probs: Seq<u16>,
}

/// A freshly reset decoder for the given properties: state zero, all four
/// distances zero, every probability at the initial estimate.
pub open spec fn spec_fresh_dec(lc: u32, lp: u32, pb: u32) -> DecView {
    DecView {
        lc,
        lp,
        pb,
        state: 0,
        rep0: 0,
        rep1: 0,
        rep2: 0,
        rep3: 0,
        is_match: all_init(192),
        is_rep: all_init(12),
        is_rep0: all_init(12),
        is_rep1: all_init(12),
        is_rep2: all_init(12),
        is_rep0_long: all_init(192),
        dist_slots: all_init(256),
        dist_special: all_init(124),
        dist_align: all_init(16),
        match_len: spec_fresh_len(),
        rep_len: spec_fresh_len(),
        literal_probs: all_init((0x300 * pow2int((lc + lp) as int)) as nat),
    }
}

/// The distance value a decoded 32-bit distance parks in the first slot:
/// all ones is the end-of-stream marker, stored as `-1`.
pub open spec fn spec_rep_from_dist(dist: u32) -> int {
    if dist == 0xFFFF_FFFF {
        -1
    } else {
        dist as int
    }
}

/// What one match decode computes, mirroring §4.C.2 of the format: rotate
/// the recent distances, decode a length, a distance slot, then the slot's
/// extra bits. `None` when the byte source runs out mid-symbol.
pub open spec fn spec_match_decode(d: DecView, v: RcView, pos_state: int) -> Option<
    (u32, DecView, RcView),
> {
    let d1 = DecView {
        state: State::spec_update_match(d.state),
        rep3: d.rep2,
        rep2: d.rep1,
        rep1: d.rep0,
        ..d
    };
    match spec_len_decode(v, d1.match_len, pos_state) {
        None => None,
        Some((len, v1, ml)) => {
            let d2 = DecView { match_len: ml, ..d1 };
            let dist_state: int = if len < 6 {
                len - 2
            } else {
                3
            };
            match spec_tree_walk(v1, d2.dist_slots, dist_state * 64, 64, 1) {
                None => None,
                Some((sym, v2, slots2)) => {
                    let slot = sym - 64;
                    let d3 = DecView { dist_slots: slots2, ..d2 };
                    if slot < 4 {
                        Some((len, DecView { rep0: slot, ..d3 }, v2))
                    } else {
                        let base: u32 = ((2 + slot % 2) as u32) << (slot / 2 - 1);
                        if slot < 14 {
                            match spec_reverse_tree_walk(
                                v2,
                                d3.dist_special,
                                spec_dist_special_slice(slot).0,
                                spec_dist_special_slice(slot).1,
                                1,
                                1,
                                0,
                            ) {
                                None => None,
                                Some((bits, v3, sp)) => Some(
                                    (
                                        len,
                                        DecView {
                                            dist_special: sp,
                                            rep0: spec_rep_from_dist(base | (bits as u32)),
                                            ..d3
                                        },
                                        v3,
                                    ),
                                ),
                            }
                        } else {
                            match spec_direct_bits(v2, slot / 2 - 5) {
                                None => None,
                                Some((direct, v3)) => match spec_reverse_tree_walk(
                                    v3,
                                    d3.dist_align,
                                    0,
                                    16,
                                    1,
                                    1,
                                    0,
                                ) {
                                    None => None,
                                    Some((al, v4, align4)) => Some(
                                        (
                                            len,
                                            DecView {
                                                dist_align: align4,
                                                rep0: spec_rep_from_dist(
                                                    base | (direct << 4) | (al as u32),
                                                ),
                                                ..d3
                                            },
                                            v4,
                                        ),
                                    ),
                                },
                            }
                        }
                    }
                },
            }
        },
    }
}

/// What one rep-match decode computes, mirroring §4.C.3 of the format: two
/// bits pick between a single-byte copy at the front distance and a length
/// decode with one of the four distances promoted to the front; the multiset
/// of distances is preserved.
pub open spec fn spec_rep_match_decode(d: DecView, v: RcView, pos_state: int) -> Option<
    (u32, DecView, RcView),
> {
    match spec_decode_bit(v, d.is_rep0[d.state]) {
        None => None,
        Some((b, v1, p)) => {
            let d1 = DecView { is_rep0: d.is_rep0.update(d.state, p), ..d };
            if b == 0 {
                match spec_decode_bit(v1, d1.is_rep0_long[d1.state * 16 + pos_state]) {
                    None => None,
                    Some((b2, v2, p2)) => {
                        let d2 = DecView {
                            is_rep0_long: d1.is_rep0_long.update(d1.state * 16 + pos_state, p2),
                            ..d1
                        };
                        if b2 == 0 {
                            Some(
                                (
                                    1u32,
                                    DecView {
                                        state: State::spec_update_short_rep(d2.state),
                                        ..d2
                                    },
                                    v2,
                                ),
                            )
                        } else {
                            spec_rep_finish(d2, v2, pos_state)
                        }
                    },
                }
            } else {
                match spec_decode_bit(v1, d1.is_rep1[d1.state]) {
                    None => None,
                    Some((b1, v2, p1)) => {
                        let d2 = DecView { is_rep1: d1.is_rep1.update(d1.state, p1), ..d1 };
                        if b1 == 0 {
                            spec_rep_finish(
                                DecView { rep0: d2.rep1, rep1: d2.rep0, ..d2 },
                                v2,
                                pos_state,
                            )
                        } else {
                            match spec_decode_bit(v2, d2.is_rep2[d2.state]) {
                                None => None,
                                Some((b2, v3, p2)) => {
                                    let d3 = DecView {
                                        is_rep2: d2.is_rep2.update(d2.state, p2),
                                        ..d2
                                    };
                                    if b2 == 0 {
                                        spec_rep_finish(
                                            DecView {
                                                rep0: d3.rep2,
                                                rep1: d3.rep0,
                                                rep2: d3.rep1,
                                                ..d3
                                            },
                                            v3,
                                            pos_state,
                                        )
                                    } else {
                                        spec_rep_finish(
                                            DecView {
                                                rep0: d3.rep3,
                                                rep1: d3.rep0,
                                                rep2: d3.rep1,
                                                rep3: d3.rep2,
                                                ..d3
                                            },
                                            v3,
                                            pos_state,
                                        )
                                    }
                                },
                            }
                        }
                    },
                }
            }
        },
    }
}

/// Which literal sub-decoder the window position and the previous byte
/// select: `(prev >> (8 - lc)) + ((pos & ((1 << lp) - 1)) << lc)`.
pub open spec fn spec_sub_index(d: DecView, lzv: LzView) -> int {
    ((dict_byte(lzv.buf, lzv.pos, 0) as u32) >> ((8 - d.lc) as u32)) + (((lzv.pos as u32) & (((1u32
        << d.lp) - 1) as u32)) << d.lc)
}

/// What the matched-literal tree walk of §4.C.1 computes: the byte at the
/// most recent distance steers the walk through the three regions of the
/// sub-decoder table until the decoded bits part ways with it. `None` when
/// the byte source runs out.
pub open spec fn spec_matched_walk(
    v: RcView,
    probs: Seq<u16>,
    base: int,
    match_byte: u32,
    offset: u32,
    symbol: int,
) -> Option<(int, RcView, Seq<u16>)>
    decreases 0x200 - symbol,
{
    if symbol < 1 || symbol >= 0x100 {
        Some((symbol, v, probs))
    } else {
        let mb = (match_byte << 1) as u32;
        let match_bit = mb & offset;
        let i = base + match_bit + offset + symbol;
        match spec_decode_bit(v, probs[i]) {
            None => None,
            Some((b, v2, p2)) => spec_matched_walk(
                v2,
                probs.update(i, p2),
                base,
                mb,
                offset & ((if b == 1 {
                    0xFFFF_FFFFu32
                } else {
                    0u32
                }) ^ !match_bit),
                2 * symbol + b,
            ),
        }
    }
}

/// What one literal decode computes, mirroring §4.C.1 of the format: after a
/// literal, a plain 256-leaf tree walk; after a match, the matched walk
/// steered by the byte at the most recent distance. The decoded byte and the
/// adapted sub-decoder come back. `None` when the byte source runs out.
pub open spec fn spec_literal_decode(d: DecView, lzv: LzView, v: RcView) -> Option<
    (u8, DecView, RcView),
> {
    let base = spec_sub_index(d, lzv) * 0x300;
    if d.state < 7 {
        match spec_tree_walk(v, d.literal_probs, base, 0x100, 1) {
            None => None,
            Some((sym, v1, probs1)) => Some(
                (
                    ((sym - 0x100) as u8),
                    DecView {
                        literal_probs: probs1,
                        state: State::spec_update_literal(d.state),
                        ..d
                    },
                    v1,
                ),
            ),
        }
    } else {
        let mb = dict_byte(lzv.buf, lzv.pos, d.rep0) as u32;
        match spec_matched_walk(v, d.literal_probs, base, mb, 0x100, 1) {
            None => None,
            Some((sym, v1, probs1)) => Some(
                (
                    ((sym - 0x100) as u8),
                    DecView {
                        literal_probs: probs1,
                        state: State::spec_update_literal(d.state),
                        ..d
                    },
                    v1,
                ),
            ),
        }
    }
}

/// The tail every long rep-match shares: update the state, then decode the
/// length with the rep length coder.
pub open spec fn spec_rep_finish(d: DecView, v: RcView, pos_state: int) -> Option<
    (u32, DecView, RcView),
> {
    let du = DecView { state: State::spec_update_long_rep(d.state), ..d };
    match spec_len_decode(v, du.rep_len, pos_state) {
        None => None,
        Some((len, v1, rl)) => Some((len, DecView { rep_len: rl, ..du }, v1)),
    }
}

/// The position context of the next symbol: the low `pb` bits of the write
/// position.
pub open spec fn spec_pos_state(pos: int, pb: u32) -> int {
    pos % pow2int(pb as int)
}

/// For small shift counts, `1usize << k` is `2^k`.
pub proof fn lemma_shl_is_pow2_usize(k: usize)
    requires
        k <= 16,
    ensures
        (1usize << k) as int == pow2int(k as int),
    decreases k,
{
    if k == 0 {
        assert(1usize << 0usize == 1) by (bit_vector);
    } else {
        lemma_shl_is_pow2_usize((k - 1) as usize);
        assert(1usize << k == 2 * (1usize << ((k - 1) as usize))) by (bit_vector)
            requires
                1 <= k <= 16,
        ;
    }
}

/// Everything one decode invocation leaves behind. `Done`: the window was
/// filled to its limit and the coder normalized. `Corrupt`: a match distance
/// reached beyond the decoded history (the end marker included); the carried
/// views hold exactly what was decoded before the fault. `Starved`: the byte
/// source ran out mid-symbol.
pub enum DecodeOutcome {
    Done { d: DecView, lz: LzView, rc: RcView },
    Corrupt { d: DecView, lz: LzView, rc: RcView },
    Starved,
}

/// The main decode loop of §4.C, one symbol per recursion step: while the
/// window has space, decode `is_match`, dispatch to a literal, match or
/// rep-match, and emit; then normalize once at the end.
pub open spec fn spec_decode_loop(d: DecView, lzv: LzView, v: RcView) -> DecodeOutcome
    decreases lzv.limit - lzv.pos,
{
    if !(lzv.pos < lzv.limit) {
        match spec_normalize(v) {
            None => DecodeOutcome::Starved,
            Some(v1) => DecodeOutcome::Done { d, lz: lzv, rc: v1 },
        }
    } else {
        let ps = spec_pos_state(lzv.pos, d.pb);
        match spec_decode_bit(v, d.is_match[d.state * 16 + ps]) {
            None => DecodeOutcome::Starved,
            Some((bit, v1, p)) => {
                let d1 = DecView { is_match: d.is_match.update(d.state * 16 + ps, p), ..d };
                if bit == 0 {
                    if d1.state >= 7 && (d1.rep0 < 0 || d1.rep0 >= lzv.full) {
                        DecodeOutcome::Corrupt { d: d1, lz: lzv, rc: v1 }
                    } else {
                        match spec_literal_decode(d1, lzv, v1) {
                            None => DecodeOutcome::Starved,
                            Some((byte, d2, v2)) => spec_decode_loop(
                                d2,
                                spec_put_byte(lzv, byte),
                                v2,
                            ),
                        }
                    }
                } else {
                    match spec_decode_bit(v1, d1.is_rep[d1.state]) {
                        None => DecodeOutcome::Starved,
                        Some((b2, v2, p2)) => {
                            let d2 = DecView { is_rep: d1.is_rep.update(d1.state, p2), ..d1 };
                            let sym = if b2 == 0 {
                                spec_match_decode(d2, v2, ps)
                            } else {
                                spec_rep_match_decode(d2, v2, ps)
                            };
                            match sym {
                                None => DecodeOutcome::Starved,
                                Some((len, d3, v3)) => {
                                    if d3.rep0 < 0 || d3.rep0 >= lzv.full {
                                        DecodeOutcome::Corrupt { d: d3, lz: lzv, rc: v3 }
                                    } else {
                                        let lz3 = spec_apply_repeat(lzv, d3.rep0, len as int);
                                        if lz3.pos <= lzv.pos {
                                            // Unreachable: decoded lengths are
                                            // at least one; this keeps the
                                            // recursion grounded.
                                            DecodeOutcome::Starved
                                        } else {
                                            spec_decode_loop(d3, lz3, v3)
                                        }
                                    }
                                },
                            }
                        },
                    }
                }
            },
        }
    }
}

/// Decoding is deterministic: a whole decode invocation is a function of the
/// decoder state, the window and the coder state alone, so two decoders with
/// equal states fed the same bytes produce equal results, equal output and
/// equal final states. `decode`'s contract pins the executable code to this
/// function.
pub proof fn lemma_decode_deterministic(
    d1: DecView,
    d2: DecView,
    l1: LzView,
    l2: LzView,
    v1: RcView,
    v2: RcView,
)
    requires
        d1 == d2,
        l1 == l2,
        v1 == v2,
    ensures
        spec_decode(d1, l1, v1) == spec_decode(d2, l2, v2),
{
}

/// One whole decode invocation: replay a truncated match copy first, then
/// run the loop.
pub open spec fn spec_decode(d: DecView, lzv: LzView, v: RcView) -> DecodeOutcome {
    if lzv.pending_len > 0 {
        if lzv.pending_dist >= lzv.full {
            DecodeOutcome::Corrupt { d, lz: lzv, rc: v }
        } else {
            spec_decode_loop(d, spec_apply_repeat(lzv, lzv.pending_dist, lzv.pending_len), v)
        }
    } else {
        spec_decode_loop(d, lzv, v)
    }
}

impl LZMADecoder {
    pub closed spec fn view(&self) -> DecView {
        DecView {
            lc: self.lc,
            lp: self.lp,
            pb: self.pb,
            state: self.state@,
            rep0: self.rep0 as int,
            rep1: self.rep1 as int,
            rep2: self.rep2 as int,
            rep3: self.rep3 as int,
            is_match: self.is_match@,
            is_rep: self.is_rep@,
            is_rep0: self.is_rep0@,
            is_rep1: self.is_rep1@,
            is_rep2: self.is_rep2@,
            is_rep0_long: self.is_rep0_long@,
            dist_slots: self.dist_slots@,
            dist_special: self.dist_special@,
            dist_align: self.dist_align@,
            match_len: self.match_len@,
            rep_len: self.rep_len@,
            literal_probs: self.literal_probs@,
        }
    }

    /// The decoder invariant: valid properties, valid coder state, every
    /// table at its exact size with every probability inside `[0, 2047]`,
    /// and every recent distance a 32-bit value or the end-marker sentinel.
    pub closed spec fn wf(self) -> bool {
        &&& self.lc <= 8 && self.lp <= 4 && self.pb <= 4
        &&& self.state.wf()
        &&& rep_ok(self.rep0) && rep_ok(self.rep1) && rep_ok(self.rep2) && rep_ok(self.rep3)
        &&& self.is_match@.len() == 192 && probs_ok(self.is_match@)
        &&& self.is_rep@.len() == 12 && probs_ok(self.is_rep@)
        &&& self.is_rep0@.len() == 12 && probs_ok(self.is_rep0@)
        &&& self.is_rep1@.len() == 12 && probs_ok(self.is_rep1@)
        &&& self.is_rep2@.len() == 12 && probs_ok(self.is_rep2@)
        &&& self.is_rep0_long@.len() == 192 && probs_ok(self.is_rep0_long@)
        &&& self.dist_slots@.len() == 256 && probs_ok(self.dist_slots@)
        &&& self.dist_special@.len() == 124 && probs_ok(self.dist_special@)
        &&& self.dist_align@.len() == 16 && probs_ok(self.dist_align@)
        &&& self.match_len.wf()
        &&& self.rep_len.wf()
        &&& self.literal_probs@.len() == 0x300 * pow2int((self.lc + self.lp) as int)
        &&& probs_ok(self.literal_probs@)
    }

    /// The most recent distance slot, for end-of-stream detection.
    pub closed spec fn spec_rep0(self) -> int {
        self.rep0 as int
    }

    /// A fresh decoder for the given literal-context, literal-position and
    /// position bits, with every probability at the initial estimate.
    pub fn new(lc: u32, lp: u32, pb: u32) -> (r: LZMADecoder)
        requires
            lc <= 8,
            lp <= 4,
            pb <= 4,
        ensures
            r.wf(),
            r.spec_rep0() == 0,
            r@ == spec_fresh_dec(lc, lp, pb),
    {
        let num_sub = get_num_sub_decoders(lc, lp);
        proof {
            assert(0x300 * pow2int((lc + lp) as int) == pow2int((lc + lp) as int) * 0x300)
                by (nonlinear_arith);
        }
        LZMADecoder {
            lc,
            lp,
            pb,
            state: State::new(),
            rep0: 0,
            rep1: 0,
            rep2: 0,
            rep3: 0,
            is_match: new_probs(192),
            is_rep: new_probs(12),
            is_rep0: new_probs(12),
            is_rep1: new_probs(12),
            is_rep2: new_probs(12),
            is_rep0_long: new_probs(192),
            dist_slots: new_probs(256),
            dist_special: new_probs(124),
            dist_align: new_probs(16),
            match_len: LengthCoder::new(),
            rep_len: LengthCoder::new(),
            literal_probs: new_probs(num_sub * 0x300),
        }
    }

    /// Return the whole state machine to its initial configuration, keeping
    /// the properties.
    pub fn reset(&mut self)
        requires
            old(self).wf(),
        ensures
            final(self).wf(),
            final(self).spec_rep0() == 0,
            final(self)@ == spec_fresh_dec(old(self)@.lc, old(self)@.lp, old(self)@.pb),
    {
        let num_sub = get_num_sub_decoders(self.lc, self.lp);
        proof {
            assert(0x300 * pow2int((self.lc + self.lp) as int) == pow2int(
                (self.lc + self.lp) as int,
            ) * 0x300) by (nonlinear_arith);
        }
        self.state.reset();
        self.rep0 = 0;
        self.rep1 = 0;
        self.rep2 = 0;
        self.rep3 = 0;
        self.is_match = new_probs(192);
        self.is_rep = new_probs(12);
        self.is_rep0 = new_probs(12);
        self.is_rep1 = new_probs(12);
        self.is_rep2 = new_probs(12);
        self.is_rep0_long = new_probs(192);
        self.dist_slots = new_probs(256);
        self.dist_special = new_probs(124);
        self.dist_align = new_probs(16);
        self.match_len.reset();
        self.rep_len.reset();
        self.literal_probs = new_probs(num_sub * 0x300);
    }

    /// True once a match decoded the end-of-stream marker distance.
    pub fn end_marker_detected(&self) -> (r: bool)
        ensures
            r == (self.spec_rep0() == -1),
    {
        self.rep0 == -1
    }

    /// Decode one literal byte into the window. In matched-literal mode the
    /// byte at the most recent distance steers the tree walk; a distance that
    /// reaches beyond the decoded history is corrupt input.
    fn decode_literal(&mut self, lz: &mut LZDecoder, rc: &mut RangeDecoder) -> (r: Result<
        (),
        Error,
    >)
        requires
            old(self).wf(),
            old(lz).wf(),
            old(rc).wf(),
            old(lz)@.pos < old(lz)@.limit,
        ensures
            final(self).wf(),
            final(lz).wf(),
            final(rc).wf(),
            final(lz)@.buf.len() == old(lz)@.buf.len(),
            final(lz)@.start == old(lz)@.start,
            final(lz)@.limit == old(lz)@.limit,
            final(lz)@.pending_len == old(lz)@.pending_len,
            final(lz)@.full >= old(lz)@.full,
            r matches Ok(_) ==> final(lz)@.pos == old(lz)@.pos + 1,
            r is Err ==> final(lz)@.pos == old(lz)@.pos,
            ({
                let guard_bad = old(self)@.state >= 7 && (old(self)@.rep0 < 0 || old(self)@.rep0
                    >= old(lz)@.full);
                if guard_bad {
                    r == Err::<(), Error>(Error::InvalidInput) && final(self)@ == old(self)@
                        && final(lz)@ == old(lz)@ && final(rc)@ == old(rc)@
                } else {
                    match spec_literal_decode(old(self)@, old(lz)@, old(rc)@) {
                        Some((byte, dv, rv)) => r == Ok::<(), Error>(()) && final(self)@ == dv
                            && final(rc)@ == rv && final(lz)@ == spec_put_byte(old(lz)@, byte),
                        None => r == Err::<(), Error>(Error::UnexpectedEof),
                    }
                }
            }),
    {
        let pos = lz.get_pos();
        let prev = lz.get_byte(0);
        let lcv = self.lc;
        let lpv = self.lp;
        assert(1u32 << lpv >= 1) by (bit_vector)
            requires
                lpv <= 4,
        ;
        let lpmask = (1u32 << lpv) - 1;
        let low = (prev as u32) >> (8 - lcv);
        let high = ((pos as u32) & lpmask) << lcv;
        let px = prev as u32;
        let py = pos as u32;
        assert((px >> ((8 - lcv) as u32)) + ((py & lpmask) << lcv) < (1u32 << ((lcv + lpv)
            as u32))) by (bit_vector)
            requires
                px <= 255 && lcv <= 8 && lpv <= 4 && lpmask == ((1u32 << lpv) - 1) as u32,
        ;
        proof {
            lemma_shl_is_pow2(((lcv + lpv) as u32));
            crate::range_dec::lemma_pow2int_increases((lcv + lpv) as int, 12);
            reveal_with_fuel(pow2int, 13);
        }
        let sub = (low + high) as usize;
        let base = sub * 0x300;
        proof {
            assert((sub + 1) * 0x300 <= pow2int((lcv + lpv) as int) * 0x300) by (nonlinear_arith)
                requires
                    sub + 1 <= pow2int((lcv + lpv) as int),
            ;
            assert(0x300 * pow2int((lcv + lpv) as int) == pow2int((lcv + lpv) as int) * 0x300)
                by (nonlinear_arith);
            assert(sub == spec_sub_index(old(self)@, old(lz)@));
        }
        let mut symbol: u32 = 1;
        if self.state.is_literal() {
            // A plain literal is one walk down the sub-decoder's 256-leaf
            // tree; the leaf index is the byte.
            let v = match rc.decode_bit_tree(&mut self.literal_probs, base, 0x100) {
                Ok(v) => v,
                Err(e) => {
                    proof {
                        assert(spec_literal_decode(old(self)@, old(lz)@, old(rc)@) is None);
                    }
                    return Err(e);
                },
            };
            symbol = 0x100 + v;
            proof {
                assert(spec_literal_decode(old(self)@, old(lz)@, old(rc)@) matches Some(t) && t.0
                    == ((symbol - 0x100) as u8) && t.2 == rc@);
            }
        } else {
            let r0 = self.rep0;
            if r0 < 0 {
                return Err(Error::InvalidInput);
            }
            let d = r0 as usize;
            if d >= lz.get_full() {
                return Err(Error::InvalidInput);
            }
            let mut match_byte = (lz.get_byte(d) as u32);
            let ghost mb0 = match_byte;
            let mut offset: u32 = 0x100;
            let ghost walk0 = spec_matched_walk(
                rc@,
                self.literal_probs@,
                base as int,
                match_byte,
                0x100,
                1,
            );
            while symbol < 0x100
                invariant
                    1 <= symbol < 0x200,
                    offset == 0 || offset == 0x100,
                    base <= 0x2F_FD00,
                    base + 0x300 <= self.literal_probs@.len(),
                    self.wf(),
                    rc.wf(),
                    lz == old(lz),
                    lz.wf(),
                    old(self)@.state >= 7,
                    0 <= old(self)@.rep0 < old(lz)@.full,
                    base as int == spec_sub_index(old(self)@, old(lz)@) * 0x300,
                    mb0 == dict_byte(old(lz)@.buf, old(lz)@.pos, old(self)@.rep0) as u32,
                    walk0 == spec_matched_walk(
                        old(rc)@,
                        old(self)@.literal_probs,
                        base as int,
                        mb0,
                        0x100,
                        1,
                    ),
                    self@ == (DecView { literal_probs: self@.literal_probs, ..old(self)@ }),
                    walk0 == spec_matched_walk(
                        rc@,
                        self.literal_probs@,
                        base as int,
                        match_byte,
                        offset,
                        symbol as int,
                    ),
                decreases 0x200 - symbol,
            {
                match_byte = match_byte << 1;
                let match_bit = match_byte & offset;
                assert(match_byte & offset == 0 || match_byte & offset == 0x100) by (bit_vector)
                    requires
                        offset == 0 || offset == 0x100u32,
                ;
                let i = (offset + match_bit + symbol) as usize;
                let bit = match rc.decode_bit(&mut self.literal_probs, base + i) {
                    Ok(b) => b,
                    Err(e) => {
                        proof {
                            assert(walk0 is None);
                            assert(spec_literal_decode(old(self)@, old(lz)@, old(rc)@) is None);
                        }
                        return Err(e);
                    },
                };
                symbol = symbol * 2 + bit;
                let t: u32 = if bit == 1 {
                    0xFFFF_FFFFu32
                } else {
                    0u32
                };
                let next_offset = offset & (t ^ !match_bit);
                assert(offset & (t ^ !match_bit) == 0 || offset & (t ^ !match_bit) == 0x100)
                    by (bit_vector)
                    requires
                        offset == 0 || offset == 0x100u32,
                ;
                offset = next_offset;
            }
            proof {
                assert(walk0 == Some(((symbol as int), rc@, self.literal_probs@)));
                assert(spec_literal_decode(old(self)@, old(lz)@, old(rc)@) matches Some(t) && t.0
                    == ((symbol - 0x100) as u8) && t.2 == rc@);
            }
        }
        assert(symbol & 0xFF == symbol - 0x100) by (bit_vector)
            requires
                0x100 <= symbol < 0x200,
        ;
        lz.put_byte((symbol & 0xFF) as u8);
        self.state.update_literal();
        proof {
            assert(self@ =~= (DecView {
                literal_probs: self@.literal_probs,
                state: State::spec_update_literal(old(self)@.state),
                ..old(self)@
            }));
        }
        Ok(())
    }

    /// Decode a match with a fresh distance: rotate the recent distances,
    /// decode the length, then the distance slot and its extra bits. The
    /// all-ones distance is the end-of-stream marker and parks `-1` in the
    /// first slot.
    fn decode_match(&mut self, pos_state: usize, rc: &mut RangeDecoder) -> (r: Result<u32, Error>)
        requires
            old(self).wf(),
            old(rc).wf(),
            pos_state < 16,
        ensures
            final(self).wf(),
            final(rc).wf(),
            match spec_match_decode(old(self)@, old(rc)@, pos_state as int) {
                Some((len, dv, rv)) => r == Ok::<u32, Error>(len) && final(self)@ == dv && final(
                    rc)@ == rv && 2 <= len <= 273,
                None => r == Err::<u32, Error>(Error::UnexpectedEof),
            },
            r matches Ok(len) ==> 2 <= len <= 273,
    {
        self.state.update_match();
        self.rep3 = self.rep2;
        self.rep2 = self.rep1;
        self.rep1 = self.rep0;
        let len = match self.match_len.decode(pos_state, rc) {
            Ok(l) => l,
            Err(e) => {
                return Err(e);
            },
        };
        let dist_state: usize = if (len as usize) < 4 + MATCH_LEN_MIN {
            (len as usize) - MATCH_LEN_MIN
        } else {
            3
        };
        let slot = match rc.decode_bit_tree(&mut self.dist_slots, dist_state * 64, 64) {
            Ok(s) => s as usize,
            Err(e) => {
                return Err(e);
            },
        };
        if slot < 4 {
            self.rep0 = slot as i64;
            return Ok(len);
        }
        assert((slot >> 1) - 1 == slot / 2 - 1 && 1 <= (slot >> 1) - 1 <= 30 && (14 <= slot ==> 6
            <= (slot >> 1) - 1)) by (bit_vector)
            requires
                4 <= slot && slot < 64,
        ;
        let limit = (slot >> 1) - 1;
        let su = slot as u32;
        assert((2u32 | (su & 1)) == (2 + su % 2) as u32 && su % 2 == (2 + su % 2) as u32 - 2)
            by (bit_vector);
        proof {
            assert((2 + su % 2) as int == 2 + (slot as int) % 2) by (bit_vector)
                requires
                    su == slot && slot < 64,
            ;
        }
        let mut dist: u32 = ((2 | (slot as u32 & 1)) as u32) << (limit as u32);
        proof {
            assert(dist == ((2 + (slot as int) % 2) as u32) << ((slot as int) / 2 - 1));
        }
        if slot < 14 {
            let (start, size) = dist_special_slice(slot);
            let bits = match rc.decode_reverse_bit_tree(&mut self.dist_special, start, size) {
                Ok(b) => b,
                Err(e) => {
                    return Err(e);
                },
            };
            dist = dist | bits;
        } else {
            let direct = match rc.decode_direct_bits(limit - 4) {
                Ok(d) => d,
                Err(e) => {
                    return Err(e);
                },
            };
            dist = dist | (direct << 4);
            let align = match rc.decode_reverse_bit_tree(&mut self.dist_align, 0, 16) {
                Ok(a) => a,
                Err(e) => {
                    return Err(e);
                },
            };
            dist = dist | align;
        }
        self.rep0 = if dist == 0xFFFF_FFFFu32 {
            -1
        } else {
            dist as i64
        };
        Ok(len)
    }

    /// Decode a match against one of the four recent distances, promoting the
    /// chosen distance to the front. A single-byte rep-match skips the length
    /// coder entirely.
    fn decode_rep_match(&mut self, pos_state: usize, rc: &mut RangeDecoder) -> (r: Result<
        u32,
        Error,
    >)
        requires
            old(self).wf(),
            old(rc).wf(),
            pos_state < 16,
        ensures
            final(self).wf(),
            final(rc).wf(),
            match spec_rep_match_decode(old(self)@, old(rc)@, pos_state as int) {
                Some((len, dv, rv)) => r == Ok::<u32, Error>(len) && final(self)@ == dv && final(
                    rc)@ == rv && 1 <= len <= 273,
                None => r == Err::<u32, Error>(Error::UnexpectedEof),
            },
            r matches Ok(len) ==> 1 <= len <= 273,
    {
        let s = self.state.get();
        let b = match rc.decode_bit(&mut self.is_rep0, s) {
            Ok(b) => b,
            Err(e) => {
                return Err(e);
            },
        };
        if b == 0 {
            let b2 = match rc.decode_bit(&mut self.is_rep0_long, s * 16 + pos_state) {
                Ok(b) => b,
                Err(e) => {
                    return Err(e);
                },
            };
            if b2 == 0 {
                self.state.update_short_rep();
                return Ok(1);
            }
        } else {
            let tmp: i64;
            let b1 = match rc.decode_bit(&mut self.is_rep1, s) {
                Ok(b) => b,
                Err(e) => {
                    return Err(e);
                },
            };
            if b1 == 0 {
                tmp = self.rep1;
            } else {
                let b2 = match rc.decode_bit(&mut self.is_rep2, s) {
                    Ok(b) => b,
                    Err(e) => {
                        return Err(e);
                    },
                };
                if b2 == 0 {
                    tmp = self.rep2;
                } else {
                    tmp = self.rep3;
                    self.rep3 = self.rep2;
                }
                self.rep2 = self.rep1;
            }
            self.rep1 = self.rep0;
            self.rep0 = tmp;
        }
        self.state.update_long_rep();
        let len = match self.rep_len.decode(pos_state, rc) {
            Ok(l) => l,
            Err(e) => {
                return Err(e);
            },
        };
        Ok(len)
    }

    /// Run the state machine until the window reaches its `limit`: replay any
    /// pending match copy, then decode literals and matches. On success the
    /// window is full up to `limit` and the range decoder is normalized; a
    /// match distance beyond the decoded history (the end marker included)
    /// surfaces as `InvalidInput`.
    #[verifier::rlimit(100)]
    pub fn decode(&mut self, lz: &mut LZDecoder, rc: &mut RangeDecoder) -> (r: Result<(), Error>)
        requires
            old(self).wf(),
            old(lz).wf(),
            old(rc).wf(),
        ensures
            final(self).wf(),
            final(lz).wf(),
            final(rc).wf(),
            final(lz)@.buf.len() == old(lz)@.buf.len(),
            final(lz)@.start == old(lz)@.start,
            final(lz)@.limit == old(lz)@.limit,
            final(lz)@.full >= old(lz)@.full,
            final(lz)@.pos >= old(lz)@.pos,
            r matches Ok(_) ==> final(lz)@.pos == final(lz)@.limit,
            match spec_decode(old(self)@, old(lz)@, old(rc)@) {
                DecodeOutcome::Done { d: dv, lz: lv, rc: rv } => r == Ok::<(), Error>(()) && final(
                    self)@ == dv && final(lz)@ == lv && final(rc)@ == rv,
                DecodeOutcome::Corrupt { d: dv, lz: lv, rc: rv } => r == Err::<(), Error>(
                    Error::InvalidInput,
                ) && final(self)@ == dv && final(lz)@ == lv && final(rc)@ == rv,
                DecodeOutcome::Starved => r == Err::<(), Error>(Error::UnexpectedEof),
            },
    {
        match lz.repeat_pending() {
            Ok(_) => (),
            Err(e) => {
                return Err(e);
            },
        }
        proof {
            if old(lz)@.pending_len > 0 && old(lz)@.pending_dist < old(lz)@.full {
                lemma_repeat_ok_is_apply(
                    old(lz)@,
                    lz@,
                    old(lz)@.pending_dist,
                    old(lz)@.pending_len,
                );
            }
        }
        while lz.has_space()
            invariant
                self.wf(),
                lz.wf(),
                rc.wf(),
                lz@.buf.len() == old(lz)@.buf.len(),
                lz@.start == old(lz)@.start,
                lz@.limit == old(lz)@.limit,
                lz@.full >= old(lz)@.full,
                lz@.pos >= old(lz)@.pos,
                spec_decode(old(self)@, old(lz)@, old(rc)@) == spec_decode_loop(self@, lz@, rc@),
            decreases lz@.limit - lz@.pos,
        {
            let ghost (dp, lp0, vp) = (self@, lz@, rc@);
            let pos = lz.get_pos();
            let pbv = self.pb;
            assert(1usize << pbv >= 1) by (bit_vector)
                requires
                    pbv <= 4,
            ;
            let mask = (1usize << pbv) - 1;
            assert(mask <= 15 && pos & mask <= mask && pos & mask == pos % (1usize << pbv))
                by (bit_vector)
                requires
                    pbv <= 4 && mask == ((1usize << pbv) - 1) as usize,
            ;
            let pos_state = pos & mask;
            proof {
                lemma_shl_is_pow2_usize(pbv as usize);
                assert(pos_state as int == spec_pos_state(lp0.pos, dp.pb));
            }
            let s = self.state.get();
            let bit = match rc.decode_bit(&mut self.is_match, s * 16 + pos_state) {
                Ok(b) => b,
                Err(e) => {
                    return Err(e);
                },
            };
            if bit == 0 {
                match self.decode_literal(lz, rc) {
                    Ok(_) => (),
                    Err(e) => {
                        return Err(e);
                    },
                }
            } else {
                let s2 = self.state.get();
                let b2 = match rc.decode_bit(&mut self.is_rep, s2) {
                    Ok(b) => b,
                    Err(e) => {
                        return Err(e);
                    },
                };
                let len = if b2 == 0 {
                    match self.decode_match(pos_state, rc) {
                        Ok(l) => l,
                        Err(e) => {
                            return Err(e);
                        },
                    }
                } else {
                    match self.decode_rep_match(pos_state, rc) {
                        Ok(l) => l,
                        Err(e) => {
                            return Err(e);
                        },
                    }
                };
                let r0 = self.rep0;
                if r0 < 0 {
                    return Err(Error::InvalidInput);
                }
                let ghost lz_before = lz@;
                match lz.repeat(r0 as usize, len as usize) {
                    Ok(_) => (),
                    Err(e) => {
                        return Err(e);
                    },
                }
                proof {
                    lemma_repeat_ok_is_apply(lz_before, lz@, r0 as int, len as int);
                }
            }
            proof {
                assert(spec_decode_loop(dp, lp0, vp) == spec_decode_loop(self@, lz@, rc@));
            }
        }
        match rc.normalize() {
            Ok(_) => (),
            Err(e) => {
                return Err(e);
            },
        }
        Ok(())
    }
}

/// For small shift counts, `1u32 << k` is `2^k`.
pub proof fn lemma_shl_is_pow2(k: u32)
    requires
        k <= 16,
    ensures
        (1u32 << k) == pow2int(k as int),
    decreases k,
{
    if k == 0 {
        assert(1u32 << 0u32 == 1) by (bit_vector);
    } else {
        lemma_shl_is_pow2((k - 1) as u32);
        assert(1u32 << k == 2 * (1u32 << ((k - 1) as u32))) by (bit_vector)
            requires
                1 <= k <= 16,
        ;
    }
}

} // verus!

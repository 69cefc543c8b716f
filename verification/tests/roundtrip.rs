//! Round-trip tests: a small reference LZMA encoder lives in this file and
//! produces conforming streams (literals, matches, rep-matches and the
//! end-of-stream marker); the library must decode every one of them back to
//! the original bytes.

use lzma_rust::byte_reader::ByteReader;
use lzma_rust::lzma2_reader::LZMA2Reader;
use lzma_rust::lzma_reader::LZMAReader;
use lzma_rust::Error;

const PROB_INIT: u16 = 1024;

struct RangeEncoder {
    low: u64,
    range: u32,
    cache: u8,
    cache_size: u64,
    out: Vec<u8>,
}

impl RangeEncoder {
    fn new() -> Self {
        RangeEncoder {
            low: 0,
            range: 0xFFFF_FFFF,
            cache: 0,
            cache_size: 1,
            out: Vec::new(),
        }
    }

    fn shift_low(&mut self) {
        if (self.low as u32) < 0xFF00_0000 || (self.low >> 32) != 0 {
            let carry = (self.low >> 32) as u8;
            let mut temp = self.cache;
            loop {
                self.out.push(temp.wrapping_add(carry));
                temp = 0xFF;
                self.cache_size -= 1;
                if self.cache_size == 0 {
                    break;
                }
            }
            self.cache = (self.low >> 24) as u8;
        }
        self.cache_size += 1;
        self.low = ((self.low as u32) << 8) as u64;
    }

    fn encode_bit(&mut self, prob: &mut u16, bit: u32) {
        let bound = (self.range >> 11) * (*prob as u32);
        if bit == 0 {
            self.range = bound;
            *prob += (2048 - *prob) >> 5;
        } else {
            self.low += bound as u64;
            self.range -= bound;
            *prob -= *prob >> 5;
        }
        if self.range < 0x0100_0000 {
            self.range <<= 8;
            self.shift_low();
        }
    }

    fn encode_direct_bits(&mut self, v: u32, count: u32) {
        for i in (0..count).rev() {
            self.range >>= 1;
            if (v >> i) & 1 == 1 {
                self.low += self.range as u64;
            }
            if self.range < 0x0100_0000 {
                self.range <<= 8;
                self.shift_low();
            }
        }
    }

    fn encode_bit_tree(&mut self, probs: &mut [u16], symbol: u32, nbits: u32) {
        let mut m: usize = 1;
        for i in (0..nbits).rev() {
            let b = (symbol >> i) & 1;
            let mut p = probs[m];
            self.encode_bit(&mut p, b);
            probs[m] = p;
            m = (m << 1) | b as usize;
        }
    }

    fn encode_reverse_bit_tree(&mut self, probs: &mut [u16], symbol: u32, nbits: u32) {
        let mut m: usize = 1;
        let mut sym = symbol;
        for _ in 0..nbits {
            let b = sym & 1;
            sym >>= 1;
            let mut p = probs[m];
            self.encode_bit(&mut p, b);
            probs[m] = p;
            m = (m << 1) | b as usize;
        }
    }

    fn finish(mut self) -> Vec<u8> {
        for _ in 0..5 {
            self.shift_low();
        }
        self.out
    }
}

struct LenEncoder {
    choice: [u16; 2],
    low: [[u16; 8]; 16],
    mid: [[u16; 8]; 16],
    high: [u16; 256],
}

impl LenEncoder {
    fn new() -> Self {
        LenEncoder {
            choice: [PROB_INIT; 2],
            low: [[PROB_INIT; 8]; 16],
            mid: [[PROB_INIT; 8]; 16],
            high: [PROB_INIT; 256],
        }
    }

    fn encode(&mut self, rc: &mut RangeEncoder, len: usize, pos_state: usize) {
        let l = (len - 2) as u32;
        if l < 8 {
            let mut p = self.choice[0];
            rc.encode_bit(&mut p, 0);
            self.choice[0] = p;
            rc.encode_bit_tree(&mut self.low[pos_state], l, 3);
        } else {
            let mut p = self.choice[0];
            rc.encode_bit(&mut p, 1);
            self.choice[0] = p;
            let l2 = l - 8;
            if l2 < 8 {
                let mut p = self.choice[1];
                rc.encode_bit(&mut p, 0);
                self.choice[1] = p;
                rc.encode_bit_tree(&mut self.mid[pos_state], l2, 3);
            } else {
                let mut p = self.choice[1];
                rc.encode_bit(&mut p, 1);
                self.choice[1] = p;
                rc.encode_bit_tree(&mut self.high, l2 - 8, 8);
            }
        }
    }
}

fn update_state_literal(s: usize) -> usize {
    if s < 4 {
        0
    } else if s < 10 {
        s - 3
    } else {
        s - 6
    }
}

fn get_dist_slot(d: u32) -> u32 {
    if d < 4 {
        d
    } else {
        let n = 31 - d.leading_zeros();
        (n << 1) | ((d >> (n - 1)) & 1)
    }
}

const DIST_SPECIAL_INDEX: [usize; 10] = [0, 2, 4, 8, 12, 20, 28, 44, 60, 92];
const DIST_SPECIAL_END: [usize; 10] = [2, 4, 8, 12, 20, 28, 44, 60, 92, 124];

/// A reference LZMA encoder with the fixed properties `lc = 3`, `lp = 0`,
/// `pb = 2` (properties byte 0x5D).
struct Encoder {
    rc: RangeEncoder,
    state: usize,
    reps: [u32; 4],
    is_match: [[u16; 16]; 12],
    is_rep: [u16; 12],
    is_rep0: [u16; 12],
    is_rep1: [u16; 12],
    is_rep2: [u16; 12],
    is_rep0_long: [[u16; 16]; 12],
    dist_slots: [[u16; 64]; 4],
    dist_special: [u16; 124],
    dist_align: [u16; 16],
    match_len: LenEncoder,
    rep_len: LenEncoder,
    literal: Vec<[u16; 0x300]>,
    history: Vec<u8>,
}

impl Encoder {
    fn new() -> Self {
        Encoder {
            rc: RangeEncoder::new(),
            state: 0,
            reps: [0; 4],
            is_match: [[PROB_INIT; 16]; 12],
            is_rep: [PROB_INIT; 12],
            is_rep0: [PROB_INIT; 12],
            is_rep1: [PROB_INIT; 12],
            is_rep2: [PROB_INIT; 12],
            is_rep0_long: [[PROB_INIT; 16]; 12],
            dist_slots: [[PROB_INIT; 64]; 4],
            dist_special: [PROB_INIT; 124],
            dist_align: [PROB_INIT; 16],
            match_len: LenEncoder::new(),
            rep_len: LenEncoder::new(),
            literal: vec![[PROB_INIT; 0x300]; 8],
            history: Vec::new(),
        }
    }

    fn pos_state(&self) -> usize {
        self.history.len() & 3
    }

    fn hist_byte(&self, dist: usize) -> u8 {
        if dist < self.history.len() {
            self.history[self.history.len() - 1 - dist]
        } else {
            0
        }
    }

    fn literal(&mut self, b: u8) {
        let ps = self.pos_state();
        let s = self.state;
        let mut p = self.is_match[s][ps];
        self.rc.encode_bit(&mut p, 0);
        self.is_match[s][ps] = p;
        let prev = self.hist_byte(0);
        let sub = (prev >> 5) as usize;
        if s < 7 {
            let mut symbol: usize = 1;
            for k in 0..8 {
                let bit = ((b >> (7 - k)) & 1) as u32;
                let mut p = self.literal[sub][symbol];
                self.rc.encode_bit(&mut p, bit);
                self.literal[sub][symbol] = p;
                symbol = (symbol << 1) | bit as usize;
            }
        } else {
            let mut mb = self.hist_byte(self.reps[0] as usize) as u32;
            let mut offset: u32 = 0x100;
            let mut symbol: u32 = 1;
            for k in 0..8 {
                let bit = ((b >> (7 - k)) & 1) as u32;
                mb <<= 1;
                let match_bit = mb & offset;
                let i = (offset + match_bit + symbol) as usize;
                let mut p = self.literal[sub][i];
                self.rc.encode_bit(&mut p, bit);
                self.literal[sub][i] = p;
                symbol = (symbol << 1) | bit;
                offset &= 0u32.wrapping_sub(bit) ^ !match_bit;
            }
        }
        self.state = update_state_literal(self.state);
        self.history.push(b);
    }

    fn encode_dist(&mut self, dist_state: usize, d: u32) {
        let slot = get_dist_slot(d);
        self.rc
            .encode_bit_tree(&mut self.dist_slots[dist_state], slot, 6);
        if slot >= 4 {
            let limit = (slot >> 1) - 1;
            let base = (2 | (slot & 1)) << limit;
            let rest = d - base;
            if slot < 14 {
                let i = (slot - 4) as usize;
                self.rc.encode_reverse_bit_tree(
                    &mut self.dist_special[DIST_SPECIAL_INDEX[i]..DIST_SPECIAL_END[i]],
                    rest,
                    limit,
                );
            } else {
                self.rc.encode_direct_bits(rest >> 4, limit - 4);
                self.rc
                    .encode_reverse_bit_tree(&mut self.dist_align, rest & 15, 4);
            }
        }
    }

    /// A match at distance `d + 1` (the coder carries `distance - 1`).
    fn match_(&mut self, d: u32, len: usize) {
        let ps = self.pos_state();
        let s = self.state;
        let mut p = self.is_match[s][ps];
        self.rc.encode_bit(&mut p, 1);
        self.is_match[s][ps] = p;
        let mut p = self.is_rep[s];
        self.rc.encode_bit(&mut p, 0);
        self.is_rep[s] = p;
        self.state = if s < 7 { 7 } else { 10 };
        self.reps[3] = self.reps[2];
        self.reps[2] = self.reps[1];
        self.reps[1] = self.reps[0];
        self.reps[0] = d;
        self.match_len.encode(&mut self.rc, len, ps);
        let dist_state = if len < 6 { len - 2 } else { 3 };
        self.encode_dist(dist_state, d);
        for _ in 0..len {
            let b = self.hist_byte(d as usize);
            self.history.push(b);
        }
    }

    /// A one-byte copy at the most recent distance.
    fn short_rep(&mut self) {
        let ps = self.pos_state();
        let s = self.state;
        let mut p = self.is_match[s][ps];
        self.rc.encode_bit(&mut p, 1);
        self.is_match[s][ps] = p;
        let mut p = self.is_rep[s];
        self.rc.encode_bit(&mut p, 1);
        self.is_rep[s] = p;
        let mut p = self.is_rep0[s];
        self.rc.encode_bit(&mut p, 0);
        self.is_rep0[s] = p;
        let mut p = self.is_rep0_long[s][ps];
        self.rc.encode_bit(&mut p, 0);
        self.is_rep0_long[s][ps] = p;
        self.state = if s < 7 { 9 } else { 11 };
        let b = self.hist_byte(self.reps[0] as usize);
        self.history.push(b);
    }

    /// A match at the most recent distance with an explicit length.
    fn long_rep0(&mut self, len: usize) {
        let ps = self.pos_state();
        let s = self.state;
        let mut p = self.is_match[s][ps];
        self.rc.encode_bit(&mut p, 1);
        self.is_match[s][ps] = p;
        let mut p = self.is_rep[s];
        self.rc.encode_bit(&mut p, 1);
        self.is_rep[s] = p;
        let mut p = self.is_rep0[s];
        self.rc.encode_bit(&mut p, 0);
        self.is_rep0[s] = p;
        let mut p = self.is_rep0_long[s][ps];
        self.rc.encode_bit(&mut p, 1);
        self.is_rep0_long[s][ps] = p;
        self.state = if s < 7 { 8 } else { 11 };
        self.rep_len.encode(&mut self.rc, len, ps);
        let d = self.reps[0] as usize;
        for _ in 0..len {
            let b = self.hist_byte(d);
            self.history.push(b);
        }
    }

    /// A match at the second most recent distance.
    fn rep1(&mut self, len: usize) {
        let ps = self.pos_state();
        let s = self.state;
        let mut p = self.is_match[s][ps];
        self.rc.encode_bit(&mut p, 1);
        self.is_match[s][ps] = p;
        let mut p = self.is_rep[s];
        self.rc.encode_bit(&mut p, 1);
        self.is_rep[s] = p;
        let mut p = self.is_rep0[s];
        self.rc.encode_bit(&mut p, 1);
        self.is_rep0[s] = p;
        let mut p = self.is_rep1[s];
        self.rc.encode_bit(&mut p, 0);
        self.is_rep1[s] = p;
        let tmp = self.reps[1];
        self.reps[1] = self.reps[0];
        self.reps[0] = tmp;
        self.state = if s < 7 { 8 } else { 11 };
        self.rep_len.encode(&mut self.rc, len, ps);
        let d = self.reps[0] as usize;
        for _ in 0..len {
            let b = self.hist_byte(d);
            self.history.push(b);
        }
    }

    /// The end-of-stream marker: a match whose distance decodes to the
    /// all-ones 32-bit value.
    fn end_marker(&mut self) {
        let ps = self.pos_state();
        let s = self.state;
        let mut p = self.is_match[s][ps];
        self.rc.encode_bit(&mut p, 1);
        self.is_match[s][ps] = p;
        let mut p = self.is_rep[s];
        self.rc.encode_bit(&mut p, 0);
        self.is_rep[s] = p;
        self.state = if s < 7 { 7 } else { 10 };
        self.match_len.encode(&mut self.rc, 2, ps);
        self.encode_dist(0, 0xFFFF_FFFF);
    }

    fn finish(self) -> (Vec<u8>, Vec<u8>) {
        (self.rc.finish(), self.history)
    }

    /// Close the current range-coded run and start a fresh one, keeping all
    /// adaptive state: what a no-reset LZMA2 chunk boundary does.
    fn cut_chunk(&mut self) -> Vec<u8> {
        std::mem::replace(&mut self.rc, RangeEncoder::new()).finish()
    }

    /// Drop all adaptive state but keep the history: what an LZMA2 chunk
    /// with a state reset does.
    fn reset_state(&mut self) {
        self.state = 0;
        self.reps = [0; 4];
        self.is_match = [[PROB_INIT; 16]; 12];
        self.is_rep = [PROB_INIT; 12];
        self.is_rep0 = [PROB_INIT; 12];
        self.is_rep1 = [PROB_INIT; 12];
        self.is_rep2 = [PROB_INIT; 12];
        self.is_rep0_long = [[PROB_INIT; 16]; 12];
        self.dist_slots = [[PROB_INIT; 64]; 4];
        self.dist_special = [PROB_INIT; 124];
        self.dist_align = [PROB_INIT; 16];
        self.match_len = LenEncoder::new();
        self.rep_len = LenEncoder::new();
        self.literal = vec![[PROB_INIT; 0x300]; 8];
    }
}

/// Append one LZMA2 chunk header plus payload for `unpacked` bytes, with the
/// given control-byte class (`0xE0` resets everything and carries the
/// properties byte, `0xA0` resets the coder state, `0x80` continues).
fn push_lzma2_chunk(v: &mut Vec<u8>, class: u8, payload: &[u8], unpacked: usize) {
    let u = unpacked - 1;
    v.push(class | (u >> 16) as u8);
    v.push((u >> 8) as u8);
    v.push(u as u8);
    let c = payload.len() - 1;
    v.push((c >> 8) as u8);
    v.push(c as u8);
    if class >= 0xC0 {
        v.push(0x5D);
    }
    v.extend_from_slice(payload);
}

/// Wrap a raw coded payload in a `.lzma` header (props 0x5D, the given
/// dictionary size, and the given uncompressed size).
fn lzma_stream(payload: &[u8], dict_size: u32, uncomp_size: u64) -> Vec<u8> {
    let mut v = vec![0x5Du8];
    v.extend_from_slice(&dict_size.to_le_bytes());
    v.extend_from_slice(&uncomp_size.to_le_bytes());
    v.extend_from_slice(payload);
    v
}

fn decode_lzma(stream: Vec<u8>) -> Result<Vec<u8>, Error> {
    let mut reader = LZMAReader::new_mem_limit(ByteReader::new(stream), u64::MAX, None)?;
    let mut out = Vec::new();
    let mut buf = vec![0u8; 4096];
    loop {
        let n = reader.read(&mut buf)?;
        if n == 0 {
            return Ok(out);
        }
        out.extend_from_slice(&buf[..n]);
    }
}

/// Encode a byte string as literals followed by the end marker.
fn encode_literals_with_eos(data: &[u8]) -> Vec<u8> {
    let mut enc = Encoder::new();
    for &b in data {
        enc.literal(b);
    }
    enc.end_marker();
    enc.finish().0
}

#[test]
fn roundtrip_empty_stream_with_end_marker() {
    let payload = encode_literals_with_eos(b"");
    let stream = lzma_stream(&payload, 1 << 16, u64::MAX);
    assert_eq!(decode_lzma(stream).unwrap(), b"");
}

#[test]
fn roundtrip_single_byte() {
    let payload = encode_literals_with_eos(b"Q");
    let stream = lzma_stream(&payload, 1 << 16, u64::MAX);
    assert_eq!(decode_lzma(stream).unwrap(), b"Q");
}

#[test]
fn roundtrip_literal_strings() {
    for data in [
        b"Hello, world!".to_vec(),
        b"aaaaaaaaaaaaaaaaaaaaaaaaa".to_vec(),
        (0u8..=255).collect::<Vec<u8>>(),
        vec![0u8; 300],
    ] {
        let payload = encode_literals_with_eos(&data);
        let stream = lzma_stream(&payload, 1 << 16, u64::MAX);
        assert_eq!(decode_lzma(stream).unwrap(), data, "data led the decoder astray");
    }
}

#[test]
fn roundtrip_with_matches_and_reps() {
    let mut enc = Encoder::new();
    for &b in b"abcabc" {
        enc.literal(b);
    }
    enc.match_(2, 6);
    enc.literal(b'x');
    enc.short_rep();
    enc.long_rep0(4);
    enc.literal(b'y');
    enc.rep1(3);
    enc.match_(11, 5);
    enc.end_marker();
    let (payload, expected) = enc.finish();
    let stream = lzma_stream(&payload, 1 << 16, u64::MAX);
    assert_eq!(decode_lzma(stream).unwrap(), expected);
}

#[test]
fn roundtrip_known_size_does_not_need_end_marker() {
    let mut enc = Encoder::new();
    for &b in b"abcd" {
        enc.literal(b);
    }
    enc.match_(3, 8);
    let (payload, expected) = enc.finish();
    let stream = lzma_stream(&payload, 1 << 16, expected.len() as u64);
    assert_eq!(decode_lzma(stream).unwrap(), expected);
}

#[test]
fn end_marker_stream_also_decodes_with_exact_size() {
    // The same coded bytes, once under the relaxed end condition and once
    // with the true length declared in the header.
    let mut enc = Encoder::new();
    for &b in b"first second first" {
        enc.literal(b);
    }
    enc.end_marker();
    let (payload, expected) = enc.finish();
    let relaxed = lzma_stream(&payload, 1 << 16, u64::MAX);
    assert_eq!(decode_lzma(relaxed).unwrap(), expected);
    let exact = lzma_stream(&payload, 1 << 16, expected.len() as u64);
    assert_eq!(decode_lzma(exact).unwrap(), expected);
}

#[test]
fn match_length_boundaries() {
    // Lengths 9, 17 and 273 sit exactly on the low/mid/high coder borders.
    for len in [9usize, 17, 273] {
        let mut enc = Encoder::new();
        for &b in b"0123456789" {
            enc.literal(b);
        }
        enc.match_(4, len);
        enc.end_marker();
        let (payload, expected) = enc.finish();
        let stream = lzma_stream(&payload, 1 << 16, u64::MAX);
        assert_eq!(decode_lzma(stream).unwrap(), expected);
    }
}

#[test]
fn distance_at_full_minus_one_accepted() {
    let mut enc = Encoder::new();
    for &b in b"abc" {
        enc.literal(b);
    }
    // Three bytes decoded; the farthest legal distance is 3 (slot value 2).
    enc.match_(2, 3);
    enc.end_marker();
    let (payload, expected) = enc.finish();
    let stream = lzma_stream(&payload, 1 << 16, u64::MAX);
    assert_eq!(decode_lzma(stream).unwrap(), expected);
    assert_eq!(&expected[..], b"abcabc");
}

#[test]
fn distance_at_full_rejected() {
    let mut enc = Encoder::new();
    for &b in b"abc" {
        enc.literal(b);
    }
    // Distance 4 reaches one byte beyond the decoded history.
    enc.match_(3, 3);
    enc.end_marker();
    let (payload, _) = enc.finish();
    let stream = lzma_stream(&payload, 1 << 16, u64::MAX);
    assert_eq!(decode_lzma(stream), Err(Error::InvalidInput));
}

#[test]
fn corrupted_first_match_yields_no_output() {
    let mut enc = Encoder::new();
    enc.match_(0, 2);
    enc.end_marker();
    let (payload, _) = enc.finish();
    let stream = lzma_stream(&payload, 1 << 16, u64::MAX);
    let mut reader = LZMAReader::new_mem_limit(ByteReader::new(stream), u64::MAX, None).unwrap();
    let mut buf = vec![0u8; 64];
    let orig = buf.clone();
    assert_eq!(reader.read(&mut buf), Err(Error::InvalidInput));
    assert_eq!(buf, orig, "a failing read must not hand out bytes");
}

#[test]
fn dictionary_smaller_than_a_distance_rejected() {
    let mut enc = Encoder::new();
    for _ in 0..100 {
        enc.literal(b'z');
    }
    // Distance 5001 exceeds both the decoded history and the 4096-byte
    // dictionary the header requests.
    enc.match_(5000, 2);
    enc.end_marker();
    let (payload, _) = enc.finish();
    let stream = lzma_stream(&payload, 4096, u64::MAX);
    assert_eq!(decode_lzma(stream), Err(Error::InvalidInput));
}

#[test]
fn dictionary_exactly_uncompressed_size() {
    let mut enc = Encoder::new();
    for i in 0..4096usize {
        enc.literal((i % 251) as u8);
    }
    let (payload, expected) = enc.finish();
    let stream = lzma_stream(&payload, 4096, 4096);
    assert_eq!(decode_lzma(stream).unwrap(), expected);
}

/// Wrap a raw coded payload in a single LZMA2 chunk (dictionary + state +
/// property reset) followed by the end-of-stream control byte.
fn lzma2_chunk_stream(payload: &[u8], unpacked: usize) -> Vec<u8> {
    let mut v = Vec::new();
    let u = unpacked - 1;
    v.push(0xE0u8 | (u >> 16) as u8);
    v.push((u >> 8) as u8);
    v.push(u as u8);
    let c = payload.len() - 1;
    v.push((c >> 8) as u8);
    v.push(c as u8);
    v.push(0x5D);
    v.extend_from_slice(payload);
    v.push(0x00);
    v
}

fn decode_lzma2(stream: Vec<u8>, dict_size: u64) -> Result<Vec<u8>, Error> {
    let mut reader = LZMA2Reader::new(ByteReader::new(stream), dict_size, None);
    let mut out = Vec::new();
    let mut buf = vec![0u8; 8192];
    loop {
        let n = reader.read(&mut buf)?;
        if n == 0 {
            return Ok(out);
        }
        out.extend_from_slice(&buf[..n]);
    }
}

#[test]
fn lzma2_coded_chunk_roundtrip() {
    let mut enc = Encoder::new();
    for &b in b"to be or not to be" {
        enc.literal(b);
    }
    enc.match_(12, 6);
    let (payload, expected) = enc.finish();
    let stream = lzma2_chunk_stream(&payload, expected.len());
    assert_eq!(decode_lzma2(stream, 8 << 20).unwrap(), expected);
}

#[test]
fn lzma2_uncompressed_chunk_of_exactly_65536_bytes() {
    let data: Vec<u8> = (0..65536usize).map(|i| (i % 257) as u8).collect();
    let mut stream = vec![0x01u8, 0xFF, 0xFF];
    stream.extend_from_slice(&data);
    stream.push(0x00);
    assert_eq!(decode_lzma2(stream, 8 << 20).unwrap(), data);
}

#[test]
fn lzma2_chunk_of_exactly_2097152_uncompressed_bytes() {
    let mut enc = Encoder::new();
    enc.literal(b'a');
    let mut produced = 1usize;
    while produced < 0x200000 {
        let left = 0x200000 - produced;
        if left >= 2 {
            let len = left.min(273);
            enc.long_rep0(len);
            produced += len;
        } else {
            enc.literal(b'a');
            produced += 1;
        }
    }
    let (payload, expected) = enc.finish();
    assert_eq!(expected.len(), 0x200000);
    let stream = lzma2_chunk_stream(&payload, expected.len());
    assert_eq!(decode_lzma2(stream, 4 << 20).unwrap(), expected);
}

#[test]
fn declared_size_ending_inside_a_match_is_invalid_data() {
    let mut enc = Encoder::new();
    enc.literal(b'a');
    enc.literal(b'b');
    enc.match_(0, 10);
    let (payload, _) = enc.finish();
    // The header claims five bytes, so the match is cut off mid-copy.
    let stream = lzma_stream(&payload, 1 << 16, 5);
    assert_eq!(decode_lzma(stream), Err(Error::InvalidData));
}

#[test]
fn lzma2_state_carries_across_chunks() {
    let mut enc = Encoder::new();
    for &b in b"abcdef" {
        enc.literal(b);
    }
    let n1 = enc.history.len();
    let payload1 = enc.cut_chunk();
    // The second chunk continues with the same probabilities and may match
    // against the first chunk's bytes.
    enc.match_(2, 4);
    enc.literal(b'!');
    let n2 = enc.history.len() - n1;
    let payload2 = enc.cut_chunk();
    let expected = enc.history.clone();
    let mut stream = Vec::new();
    push_lzma2_chunk(&mut stream, 0xE0, &payload1, n1);
    push_lzma2_chunk(&mut stream, 0x80, &payload2, n2);
    stream.push(0x00);
    assert_eq!(decode_lzma2(stream, 8 << 20).unwrap(), expected);
}

#[test]
fn lzma2_state_reset_chunk_keeps_dictionary() {
    let mut enc = Encoder::new();
    for &b in b"window" {
        enc.literal(b);
    }
    let n1 = enc.history.len();
    let payload1 = enc.cut_chunk();
    enc.reset_state();
    // Fresh coder state, but the match still reaches into the previous
    // chunk's bytes.
    enc.match_(5, 6);
    let n2 = enc.history.len() - n1;
    let payload2 = enc.cut_chunk();
    let expected = enc.history.clone();
    let mut stream = Vec::new();
    push_lzma2_chunk(&mut stream, 0xE0, &payload1, n1);
    push_lzma2_chunk(&mut stream, 0xA0, &payload2, n2);
    stream.push(0x00);
    assert_eq!(decode_lzma2(stream, 8 << 20).unwrap(), expected);
    assert_eq!(&expected[..], b"windowwindow");
}

#[test]
fn lzma2_plain_lzma_chunk_after_uncompressed_needs_state_reset() {
    let mut enc = Encoder::new();
    // The encoder pretends the uncompressed chunk's bytes are history.
    for &b in b"raw" {
        enc.history.push(b);
    }
    enc.reset_state();
    enc.literal(b'x');
    let payload = enc.cut_chunk();
    // 0x80 after an uncompressed chunk is invalid: the first LZMA chunk of
    // a stream that opened with raw bytes still owes a properties reset.
    let mut bad = vec![0x01, 0x00, 0x02, b'r', b'a', b'w'];
    push_lzma2_chunk(&mut bad, 0x80, &payload, 1);
    bad.push(0x00);
    assert_eq!(decode_lzma2(bad, 8 << 20), Err(Error::InvalidInput));
    // With a properties (and state) reset that keeps the dictionary, the
    // continuation decodes and may reference the raw bytes.
    let mut good = vec![0x01, 0x00, 0x02, b'r', b'a', b'w'];
    push_lzma2_chunk(&mut good, 0xC0, &payload, 1);
    good.push(0x00);
    assert_eq!(decode_lzma2(good, 8 << 20).unwrap(), b"rawx");
}

#[test]
fn lzma2_chunk_with_undrained_coder_is_invalid_data() {
    let mut enc = Encoder::new();
    for &b in b"abcde" {
        enc.literal(b);
    }
    let (payload, _) = enc.finish();
    // The header declares three uncompressed bytes, so the coder still holds
    // undecoded work when the chunk ends.
    let mut stream = Vec::new();
    push_lzma2_chunk(&mut stream, 0xE0, &payload, 3);
    stream.push(0x00);
    assert_eq!(decode_lzma2(stream, 8 << 20), Err(Error::InvalidData));
}

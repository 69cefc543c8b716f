//! Unit tests for the header, properties and sizing helpers.

use lzma_rust::byte_reader::ByteReader;
use lzma_rust::lzma2_reader;
use lzma_rust::lzma_reader;
use lzma_rust::state::State;
use lzma_rust::Error;

#[test]
fn props_0x5d_parses_to_lc3_lp0_pb2() {
    let (lc, lp, pb) = lzma_reader::get_lc_lp_pb(0x5D).unwrap();
    assert_eq!((lc, lp, pb), (3, 0, 2));
}

#[test]
fn props_0xe1_rejected() {
    assert_eq!(lzma_reader::get_lc_lp_pb(0xE1), Err(Error::InvalidInput));
    assert_eq!(lzma_reader::get_lc_lp_pb(225), Err(Error::InvalidInput));
    assert_eq!(
        lzma2_reader::get_props_pb_lp_lc_num_subdecoders(0xE1),
        Err(Error::InvalidInput)
    );
}

#[test]
fn props_boundary_224_accepted() {
    let (lc, lp, pb) = lzma_reader::get_lc_lp_pb(224).unwrap();
    assert_eq!(pb, 4);
    assert_eq!(lp, 4);
    assert_eq!(lc, 8);
}

#[test]
fn lzma2_props_reject_lc_lp_sum_over_4() {
    // lc = 3, lp = 2: (pb*5 + lp)*9 + lc with pb = 0 gives 2*9 + 3 = 21.
    assert_eq!(
        lzma2_reader::get_props_pb_lp_lc_num_subdecoders(21),
        Err(Error::InvalidInput)
    );
    // lc = 3, lp = 0, pb = 2 is the common default and is accepted.
    let (_rest, pb, lp, lc, num) = lzma2_reader::get_props_pb_lp_lc_num_subdecoders(0x5D).unwrap();
    assert_eq!((lc, lp, pb), (3, 0, 2));
    assert_eq!(num, 8);
}

#[test]
fn dict_size_rounding() {
    assert_eq!(lzma_reader::get_dict_size(0).unwrap(), 4096);
    assert_eq!(lzma_reader::get_dict_size(4096).unwrap(), 4096);
    assert_eq!(lzma_reader::get_dict_size(4097).unwrap(), 4112);
    assert_eq!(lzma_reader::get_dict_size(1 << 20).unwrap(), 1 << 20);
    assert_eq!(
        lzma_reader::get_dict_size(u64::MAX),
        Err(Error::InvalidInput)
    );
    assert_eq!(lzma2_reader::get_dict_size(1), 16);
    assert_eq!(lzma2_reader::get_dict_size(16), 16);
    assert_eq!(lzma2_reader::get_dict_size(17), 32);
}

#[test]
fn memory_usage_formulas() {
    // 10 + 4096/1024 + (2*0x300 << 3)/1024 = 10 + 4 + 12 = 26 for lc=3, lp=0.
    assert_eq!(lzma_reader::get_memory_usage(4096, 3, 0).unwrap(), 26);
    assert_eq!(lzma_reader::get_memory_usage_by_props(4096, 0x5D).unwrap(), 26);
    assert_eq!(lzma_reader::get_memory_usage(0, 9, 0), Err(Error::InvalidInput));
    // 40 + 64 + dict/1024 for the chunked format.
    assert_eq!(lzma2_reader::get_memory_usage(1 << 20), 40 + 64 + 1024);
}

#[test]
fn decoder_dict_size_shrinks_to_uncompressed_size() {
    // An 8 MiB dictionary for a 5000-byte stream shrinks to 5008 (5000
    // rounded up to a multiple of 16).
    assert_eq!(
        lzma_reader::get_decoder_dict_size(5000, 8 << 20).unwrap(),
        5008
    );
    // Unknown size keeps the requested dictionary.
    assert_eq!(
        lzma_reader::get_decoder_dict_size(u64::MAX, 8 << 20).unwrap(),
        8 << 20
    );
}

#[test]
fn byte_reader_primitives() {
    let mut r = ByteReader::new(vec![1, 2, 3, 4, 5, 6, 7, 8, 9, 10, 11, 12, 13, 14, 15]);
    assert_eq!(lzma_reader::read_u8(&mut r).unwrap(), 1);
    assert_eq!(lzma_reader::read_u16_be(&mut r).unwrap(), 0x0203);
    assert_eq!(lzma_reader::read_u32_le(&mut r).unwrap(), 0x07060504);
    assert_eq!(
        lzma_reader::read_u64_le(&mut r).unwrap(),
        0x0F0E0D0C0B0A0908
    );
    assert_eq!(lzma_reader::read_u8(&mut r), Err(Error::UnexpectedEof));
}

#[test]
fn state_transitions_match_the_table() {
    let mut s = State::new();
    assert!(s.is_literal());
    assert_eq!(s.get(), 0);
    s.update_match();
    assert_eq!(s.get(), 7);
    assert!(!s.is_literal());
    s.update_match();
    assert_eq!(s.get(), 10);
    s.update_literal();
    assert_eq!(s.get(), 4);
    s.update_long_rep();
    assert_eq!(s.get(), 8);
    s.update_literal();
    assert_eq!(s.get(), 5);
    s.update_short_rep();
    assert_eq!(s.get(), 9);
    s.update_literal();
    assert_eq!(s.get(), 6);
    s.update_literal();
    assert_eq!(s.get(), 3);
    s.update_literal();
    assert_eq!(s.get(), 0);
    s.reset();
    assert_eq!(s.get(), 0);
}

#[test]
fn num_sub_decoders_is_a_power_of_two() {
    assert_eq!(lzma_rust::decoder::get_num_sub_decoders(0, 0), 1);
    assert_eq!(lzma_rust::decoder::get_num_sub_decoders(3, 0), 8);
    assert_eq!(lzma_rust::decoder::get_num_sub_decoders(3, 1), 16);
    assert_eq!(lzma_rust::decoder::get_num_sub_decoders(8, 4), 4096);
}

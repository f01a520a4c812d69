//! Byte-level tests of the wire format: variable-length integers, the
//! combinators, and the structural codecs.

use wasm_codec::leb::{sleb_decode, sleb_encode, uleb_decode, uleb_encode, uleb_encode_checked};
use wasm_codec::WasmBinary;
use wasm_codec::WasmError;
use wasm_codec::WithSize;

fn uleb_round_trip(v: u32) {
    let mut out: Vec<u8> = Vec::new();
    uleb_encode(v, &mut out);
    let (back, n) = uleb_decode(&out, 0, u32::MAX, 5).unwrap();
    assert_eq!(back, v);
    assert_eq!(n, out.len());
}

#[test]
fn unsigned_varint_boundary_values_round_trip() {
    uleb_round_trip(0);
    uleb_round_trip(127);
    uleb_round_trip(128);
    uleb_round_trip(2147483647);
    uleb_round_trip(4294967295);
}

#[test]
fn unsigned_varint_matches_reference_encoder() {
    for v in [0u32, 1, 127, 128, 300, 16384, 2147483647, 4294967295] {
        let mut ours: Vec<u8> = Vec::new();
        uleb_encode(v, &mut ours);
        let mut theirs: Vec<u8> = Vec::new();
        leb128::write::unsigned(&mut theirs, v as u64).unwrap();
        assert_eq!(ours, theirs);
    }
}

fn sleb_round_trip(v: i64, budget: u32) {
    let mut out: Vec<u8> = Vec::new();
    sleb_encode(v as i128, &mut out);
    let (back, n) = sleb_decode(&out, 0, budget).unwrap();
    assert_eq!(back, v as i128);
    assert_eq!(n, out.len());
}

#[test]
fn signed_varint_boundary_values_round_trip() {
    sleb_round_trip(i32::MIN as i64, 5);
    sleb_round_trip(i32::MAX as i64, 5);
    sleb_round_trip(i64::MIN, 10);
    sleb_round_trip(i64::MAX, 10);
    sleb_round_trip(0, 5);
    sleb_round_trip(-1, 5);
    sleb_round_trip(63, 5);
    sleb_round_trip(-64, 5);
    sleb_round_trip(64, 5);
    sleb_round_trip(-65, 5);
}

#[test]
fn signed_varint_matches_reference_encoder() {
    for v in [0i64, -1, 63, -64, 64, -65, i32::MIN as i64, i32::MAX as i64, i64::MIN, i64::MAX] {
        let mut ours: Vec<u8> = Vec::new();
        sleb_encode(v as i128, &mut ours);
        let mut theirs: Vec<u8> = Vec::new();
        leb128::write::signed(&mut theirs, v).unwrap();
        assert_eq!(ours, theirs);
    }
}

#[test]
fn signed_varint_trait_codecs_round_trip() {
    for v in [i32::MIN, -1, 0, 1, i32::MAX] {
        let mut out: Vec<u8> = Vec::new();
        v.encode(&mut out).unwrap();
        let (back, n) = i32::decode(&out, 0).unwrap();
        assert_eq!(back, v);
        assert_eq!(n, out.len());
    }
    for v in [i64::MIN, -1, 0, 1, i64::MAX] {
        let mut out: Vec<u8> = Vec::new();
        v.encode(&mut out).unwrap();
        let (back, n) = i64::decode(&out, 0).unwrap();
        assert_eq!(back, v);
        assert_eq!(n, out.len());
    }
}

#[test]
fn unsigned_wider_than_32_bits_fails_with_overflow_error() {
    let mut out: Vec<u8> = Vec::new();
    let r = uleb_encode_checked(0x1_0000_0000, &mut out);
    assert!(matches!(r, Err(WasmError::Invalid(_))));
    assert!(out.is_empty());
}

#[test]
fn unsigned_decode_overflow_is_invalid_not_eof() {
    // Five bytes carrying 35 significant bits: the value exceeds 32 bits.
    let bytes = vec![0xffu8, 0xff, 0xff, 0xff, 0x7f];
    let r = uleb_decode(&bytes, 0, u32::MAX, 5);
    assert!(matches!(r, Err(WasmError::Invalid(_))));
    // A six-byte encoding is rejected even if the value would be small.
    let bytes = vec![0x80u8, 0x80, 0x80, 0x80, 0x80, 0x00];
    let r = uleb_decode(&bytes, 0, u32::MAX, 5);
    assert!(matches!(r, Err(WasmError::Invalid(_))));
    // A truncated encoding is end-of-input, not a format violation.
    let bytes = vec![0x80u8, 0x80];
    let r = uleb_decode(&bytes, 0, u32::MAX, 5);
    assert!(matches!(r, Err(WasmError::Eof)));
}

#[test]
fn unsigned_decode_accepts_maximum() {
    let bytes = vec![0xffu8, 0xff, 0xff, 0xff, 0x0f];
    let (v, n) = uleb_decode(&bytes, 0, u32::MAX, 5).unwrap();
    assert_eq!(v, u32::MAX);
    assert_eq!(n, 5);
}

#[test]
fn with_size_writes_exact_length_prefix() {
    let block = WithSize { content: vec![1u8, 2, 3] };
    let mut out: Vec<u8> = Vec::new();
    let n = block.encode(&mut out).unwrap();
    // Content encoding: count 3, then the three bytes; the prefix says 4.
    assert_eq!(out, vec![4u8, 3, 1, 2, 3]);
    assert_eq!(n, 5);
    let (back, consumed) = <WithSize<Vec<u8>> as WasmBinary>::decode(&out, 0).unwrap();
    assert_eq!(back.content, vec![1u8, 2, 3]);
    assert_eq!(consumed, 5);
}

#[test]
fn with_size_rejects_mismatched_length_prefix() {
    // Declared length 9, but the content occupies 4 bytes.
    let bytes = vec![9u8, 3, 1, 2, 3];
    let r = <WithSize<Vec<u8>> as WasmBinary>::decode(&bytes, 0);
    assert!(matches!(r, Err(WasmError::Invalid(_))));
}

#[test]
fn text_rejects_invalid_utf8_with_description() {
    let bytes = vec![2u8, 0xff, 0xfe];
    let r = String::decode(&bytes, 0);
    match r {
        Err(WasmError::Invalid(reason)) => assert!(reason.contains("utf-8")),
        other => panic!("expected an invalid-data error, got {:?}", other.is_ok()),
    }
}

#[test]
fn text_round_trips_valid_utf8() {
    let s = "grüße".to_string();
    let mut out: Vec<u8> = Vec::new();
    let n = s.encode(&mut out).unwrap();
    assert_eq!(n, out.len());
    let (back, consumed) = String::decode(&out, 0).unwrap();
    assert_eq!(back, s);
    assert_eq!(consumed, out.len());
}

#[test]
fn vector_codec_is_length_prefixed() {
    let v: Vec<u8> = vec![7, 8, 9];
    let mut out: Vec<u8> = Vec::new();
    v.encode(&mut out).unwrap();
    assert_eq!(out, vec![3u8, 7, 8, 9]);
    let (back, n) = Vec::<u8>::decode(&out, 0).unwrap();
    assert_eq!(back, v);
    assert_eq!(n, 4);
}

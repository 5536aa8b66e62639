use alpha_encode::bytes::{compose, decompose, decompose_shift};
use alpha_encode::hex::{build_alphabet, parse_bytes};
use alpha_encode::EncodeError;

#[test]
fn parse_simple_list() {
    let v = parse_bytes(b"\\x2f\\x62\\x69\\x6e").unwrap();
    assert_eq!(v, vec![0x2f, 0x62, 0x69, 0x6e]);
}

#[test]
fn parse_upper_and_lower_case_digits() {
    let v = parse_bytes(b"\\xFf\\x0a\\xB3").unwrap();
    assert_eq!(v, vec![0xff, 0x0a, 0xb3]);
}

#[test]
fn parse_empty_string() {
    let v = parse_bytes(b"").unwrap();
    assert!(v.is_empty());
}

#[test]
fn parse_ignores_empty_segments() {
    let v = parse_bytes(b"\\x\\x41\\x\\x42\\x").unwrap();
    assert_eq!(v, vec![0x41, 0x42]);
}

#[test]
fn parse_leading_segment() {
    // Text before the first delimiter is a segment of its own.
    let v = parse_bytes(b"41\\x42").unwrap();
    assert_eq!(v, vec![0x41, 0x42]);
}

#[test]
fn parse_rejects_non_hex_segment() {
    let r = parse_bytes(b"\\xZZ");
    assert_eq!(r.unwrap_err(), EncodeError::BadByteSpec);
}

#[test]
fn parse_rejects_short_segment() {
    let r = parse_bytes(b"\\x4");
    assert_eq!(r.unwrap_err(), EncodeError::BadByteSpec);
}

#[test]
fn parse_rejects_long_segment() {
    let r = parse_bytes(b"\\x444");
    assert_eq!(r.unwrap_err(), EncodeError::BadByteSpec);
}

#[test]
fn compose_reads_little_endian() {
    assert_eq!(compose(&[0x01, 0x02, 0x03, 0x04]), 0x04030201);
}

#[test]
fn compose_zero_extends_short_input() {
    assert_eq!(compose(&[0x55]), 0x00000055);
    assert_eq!(compose(&[]), 0);
}

#[test]
fn compose_ignores_extra_bytes() {
    assert_eq!(compose(&[0x01, 0x02, 0x03, 0x04, 0xFF]), 0x04030201);
}

#[test]
fn decompose_splits_lanes() {
    assert_eq!(decompose(0x04030201), vec![0x01, 0x02, 0x03, 0x04]);
}

#[test]
fn decompose_shift_picks_one_lane() {
    assert_eq!(decompose_shift(0xAABBCCDD, 0), 0xDD);
    assert_eq!(decompose_shift(0xAABBCCDD, 8), 0xCC);
    assert_eq!(decompose_shift(0xAABBCCDD, 16), 0xBB);
    assert_eq!(decompose_shift(0xAABBCCDD, 24), 0xAA);
}

#[test]
fn both_alphabet_forms_conflict() {
    let good = vec![0x41u8];
    let bad = vec![0x00u8];
    let r = build_alphabet(Some(&good), Some(&bad));
    assert_eq!(r.unwrap_err(), EncodeError::ConflictingAlphabets);
}

#[test]
fn good_bytes_pass_through() {
    let good = vec![0x50u8, 0x2D, 0x41];
    let r = build_alphabet(Some(&good), None).unwrap();
    assert_eq!(r, good);
}

#[test]
fn bad_bytes_complement() {
    let bad: Vec<u8> = (0x00u8..=0xFE).collect();
    let r = build_alphabet(None, Some(&bad)).unwrap();
    assert_eq!(r, vec![0xFF]);
}

#[test]
fn bad_bytes_complement_is_sorted_and_disjoint() {
    let bad = vec![0x00u8, 0x0a, 0xff, 0x0a];
    let r = build_alphabet(None, Some(&bad)).unwrap();
    assert_eq!(r.len(), 253);
    for w in r.windows(2) {
        assert!(w[0] < w[1]);
    }
    for b in &bad {
        assert!(!r.contains(b));
    }
}

#[test]
fn no_alphabet_is_empty() {
    let r = build_alphabet(None, None).unwrap();
    assert!(r.is_empty());
}

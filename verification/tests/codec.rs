//! Tests of the numeric codec: key transform, records, run streams.

use extsort::codec::{bits_of_key, decode_run, encode_run, key_of_bits, read_record};
use extsort::SortError;

fn key_of(v: f64) -> u64 {
    key_of_bits(v.to_bits())
}

fn val_of(k: u64) -> f64 {
    f64::from_bits(bits_of_key(k))
}

#[test]
fn key_transform_round_trips() {
    let samples: Vec<f64> = vec![
        0.0,
        -0.0,
        1.0,
        -1.0,
        0.1,
        -0.1,
        1.5e300,
        -1.5e300,
        2.5e-7,
        -2.5e-7,
        f64::MAX,
        f64::MIN,
        f64::MIN_POSITIVE,
        f64::INFINITY,
        f64::NEG_INFINITY,
    ];
    for v in samples {
        let bits = v.to_bits();
        assert_eq!(bits_of_key(key_of_bits(bits)), bits);
        assert_eq!(val_of(key_of(v)).to_bits(), bits);
    }
}

#[test]
fn key_transform_exact_values() {
    // +0.0 has bit pattern 0: its key only gains the sign bit.
    assert_eq!(key_of_bits(0), 0x8000_0000_0000_0000);
    // -0.0 has only the sign bit set: its key is the complement.
    assert_eq!(key_of_bits(0x8000_0000_0000_0000), 0x7fff_ffff_ffff_ffff);
}

#[test]
fn key_order_matches_value_order() {
    let ordered: Vec<f64> = vec![
        f64::NEG_INFINITY,
        -1.5e300,
        -1.0,
        -0.5,
        -2.5e-7,
        -0.0,
        0.0,
        2.5e-7,
        0.5,
        1.0,
        1.5e300,
        f64::INFINITY,
    ];
    for w in ordered.windows(2) {
        assert!(key_of(w[0]) < key_of(w[1]));
    }
}

#[test]
fn record_bytes_are_least_significant_first() {
    let ks: Vec<u64> = vec![0x0102_0304_0506_0708];
    let bytes = encode_run(&ks);
    assert_eq!(bytes, vec![0x08, 0x07, 0x06, 0x05, 0x04, 0x03, 0x02, 0x01]);
    assert_eq!(read_record(&bytes, 0), 0x0102_0304_0506_0708);
}

#[test]
fn run_encoding_round_trips() {
    let ks: Vec<u64> = vec![0, 1, u64::MAX, 42, 0x8000_0000_0000_0000, 7, 7];
    let bytes = encode_run(&ks);
    assert_eq!(bytes.len(), 8 * ks.len());
    assert_eq!(decode_run(&bytes), Ok(ks));
}

#[test]
fn empty_run_encodes_to_no_bytes() {
    let ks: Vec<u64> = Vec::new();
    let bytes = encode_run(&ks);
    assert_eq!(bytes.len(), 0);
    assert_eq!(decode_run(&bytes), Ok(Vec::new()));
}

#[test]
fn partial_record_is_malformed() {
    let bytes: Vec<u8> = vec![1, 2, 3, 4, 5, 6, 7];
    assert_eq!(decode_run(&bytes), Err(SortError::MalformedRunError));
    let bytes: Vec<u8> = vec![0; 17];
    assert_eq!(decode_run(&bytes), Err(SortError::MalformedRunError));
}

//! Numbers as byte strings.

use extenddb_storage_bigtable::number::{decode, encode, SIGN_NEG, SIGN_POS, SIGN_ZERO};

fn enc(s: &str) -> Vec<u8> {
    encode(s).unwrap_or_else(|e| panic!("encode {s:?}: {e:?}"))
}

fn check_order(values: &[&str]) {
    for w in values.windows(2) {
        let a = enc(w[0]);
        let b = enc(w[1]);
        assert!(a < b, "expected {} < {} (encoded {:?} < {:?})", w[0], w[1], a, b);
    }
}

#[test]
fn zero_forms_collapse() {
    let z = enc("0");
    assert_eq!(z, vec![SIGN_ZERO]);
    assert_eq!(enc("0.0"), z);
    assert_eq!(enc("-0"), z);
    assert_eq!(enc("0e10"), z);
    assert_eq!(enc("0.000"), z);
}

#[test]
fn equivalent_forms_match() {
    assert_eq!(enc("10"), enc("10.0"));
    assert_eq!(enc("10"), enc("1e1"));
    assert_eq!(enc("100"), enc("1E2"));
    assert_eq!(enc("0.5"), enc("5e-1"));
    assert_eq!(enc("3.14"), enc("314e-2"));
}

#[test]
fn sign_partitioning() {
    let neg = enc("-1");
    let zero = enc("0");
    let pos = enc("1");
    assert!(neg < zero);
    assert!(zero < pos);
}

#[test]
fn lex_matches_numeric_full_spectrum() {
    check_order(&[
        "-1e125", "-1e10", "-100", "-99.99", "-10", "-1.51", "-1.5", "-1.05", "-1", "-0.5", "-0.1",
        "-1e-10", "-1e-130", "0", "1e-130", "1e-10", "0.1", "0.5", "1", "1.05", "1.5", "1.51",
        "10", "99.99", "100", "1e10", "1e125",
    ]);
}

#[test]
fn lex_matches_numeric_near_zero_dense() {
    check_order(&[
        "-0.0011", "-0.001", "-0.0009", "-0.0001", "0", "0.0001", "0.0009", "0.001", "0.0011",
    ]);
}

#[test]
fn lex_matches_numeric_38_digit_precision() {
    let a = "1.0000000000000000000000000000000000001";
    let b = "1.0000000000000000000000000000000000002";
    assert!(enc(a) < enc(b));
    let c = "-1.0000000000000000000000000000000000001";
    let d = "-1.0000000000000000000000000000000000002";
    assert!(enc(d) < enc(c));
}

#[test]
fn rejects_too_many_digits() {
    assert!(encode("1234567890123456789012345678901234567890").is_err());
}

#[test]
fn rejects_out_of_range_exp() {
    assert!(encode("1e126").is_err());
    assert!(encode("1e-131").is_err());
}

#[test]
fn rejects_garbage() {
    assert!(encode("abc").is_err());
    assert!(encode("1.2.3").is_err());
    assert!(encode("--1").is_err());
    assert!(encode("").is_err());
    assert!(encode(".").is_err());
}

#[test]
fn handles_leading_zeros() {
    assert_eq!(enc("007"), enc("7"));
    assert_eq!(enc("000.5"), enc("0.5"));
    assert_eq!(enc("-0007"), enc("-7"));
}

#[test]
fn round_trip_decode() {
    let cases = [
        "0", "1", "-1", "10", "100", "0.5", "-0.5", "3.14", "-0.045", "1.23e5", "1.23e-5",
        "-1.23e5", "-1.23e-5", "12345678901234567890123456789012345678",
    ];
    for c in cases {
        let encoded = encode(c).unwrap();
        let decoded = decode(&encoded).unwrap();
        let re_encoded = encode(&decoded).unwrap();
        assert_eq!(encoded, re_encoded, "roundtrip fail for {c} -> decoded {decoded}");
    }
}

#[test]
fn encodings_byte_by_byte() {
    // 42 is 4.2e1.
    let mut expected = vec![SIGN_POS, 131, 4, 2];
    expected.resize(40, 0);
    assert_eq!(enc("42"), expected);
    // The digits of a negative number are complemented and followed by 0xFF.
    let mut expected = vec![SIGN_NEG, 255 - 131, 5, 7];
    expected.resize(40, 0xFF);
    assert_eq!(enc("-42"), expected);
}

#[test]
fn a_negative_number_with_more_digits_sorts_first() {
    check_order(&["-1.51", "-1.5", "-1.50000000001e-1", "-0.15"]);
}

#[test]
fn decode_rejects_what_is_no_encoding() {
    assert!(decode(&[]).is_err());
    assert!(decode(&[0x7F]).is_err());
    assert!(decode(&[SIGN_POS, 131]).is_err());
}

//! Tests of the error model, percent-decoding and scalar coercion.

use querystring::coerce::{parse_bool, parse_i64, parse_u64};
use querystring::{from_bytes, Config, Error, ErrorKind, Group, OptSlice, QSDeserializer};

fn collect(input: &[u8], config: Config) -> Vec<(Vec<u8>, Vec<Option<Vec<u8>>>)> {
    let mut d: QSDeserializer = from_bytes(input, config).unwrap();
    let mut out = Vec::new();
    while let Some(k) = d.next_key() {
        let g = d.next_value();
        let vs = match g {
            Group::Multi(vs) => vs,
            _ => panic!("expected the duplicate mode"),
        };
        let mut decoded = Vec::new();
        for v in vs {
            decoded.push(match v {
                OptSlice::Absent => None,
                OptSlice::Value(t) => Some(t.decode().unwrap()),
            });
        }
        out.push((k, decoded));
    }
    out
}

#[test]
fn malformed_escape_in_key_is_invalid_encoding() {
    // `%` not followed by two hex digits fails the whole decode
    assert_eq!(
        from_bytes(b"v%zz=1", Config::UrlEncoded).unwrap_err().kind,
        ErrorKind::InvalidEncoding
    );
    assert_eq!(
        from_bytes(b"a=1&b%=2", Config::Duplicate).unwrap_err().kind,
        ErrorKind::InvalidEncoding
    );
    assert_eq!(
        from_bytes(b"n[%G1]=1", Config::Brackets).unwrap_err().kind,
        ErrorKind::InvalidEncoding
    );
}

#[test]
fn malformed_escape_in_value_fails_on_read() {
    // values are decoded when read; the error kind is the same
    let mut d = from_bytes(b"k=%1", Config::UrlEncoded).unwrap();
    assert_eq!(d.next_key().unwrap(), b"k".to_vec());
    let g = d.next_value();
    match g.scalar().unwrap() {
        OptSlice::Value(t) => {
            assert_eq!(t.decode().unwrap_err().kind, ErrorKind::InvalidEncoding);
        },
        OptSlice::Absent => panic!("value expected"),
    }
}

#[test]
fn decoding_is_idempotent() {
    // the same bytes under the same mode decode to the same collection
    let input: &[u8] = b"foo=b%61r&foo=2&x&y=1+2&n=3";
    let first = collect(input, Config::Duplicate);
    let second = collect(input, Config::Duplicate);
    assert_eq!(first, second);
}

#[test]
fn empty_input_has_one_empty_field() {
    // the empty input is one field: an empty key with an absent value
    let mut d = from_bytes(b"", Config::UrlEncoded).unwrap();
    let k = d.next_key().unwrap();
    assert_eq!(k, Vec::<u8>::new());
    assert!(matches!(d.next_value().scalar().unwrap(), OptSlice::Absent));
    assert!(d.next_key().is_none());
}

#[test]
fn keys_decode_plus_as_space() {
    let out = collect(b"a+b=1", Config::Duplicate);
    assert_eq!(out[0].0, b"a b".to_vec());
}

#[test]
fn coerce_unsigned() {
    assert_eq!(parse_u64(b"0").unwrap(), 0);
    assert_eq!(parse_u64(b"1337").unwrap(), 1337);
    assert_eq!(parse_u64(b"18446744073709551615").unwrap(), u64::MAX);
    // too large by one
    assert_eq!(
        parse_u64(b"18446744073709551616").unwrap_err().kind,
        ErrorKind::InvalidType
    );
    // sign, empty and stray bytes are rejected
    assert_eq!(parse_u64(b"").unwrap_err().kind, ErrorKind::InvalidType);
    assert_eq!(parse_u64(b"12a").unwrap_err().kind, ErrorKind::InvalidType);
    assert_eq!(parse_u64(b"-1").unwrap_err().kind, ErrorKind::InvalidType);
    assert_eq!(parse_u64(b"+1").unwrap_err().kind, ErrorKind::InvalidType);
}

#[test]
fn coerce_signed() {
    assert_eq!(parse_i64(b"42").unwrap(), 42);
    assert_eq!(parse_i64(b"-42").unwrap(), -42);
    assert_eq!(parse_i64(b"-9223372036854775808").unwrap(), i64::MIN);
    assert_eq!(parse_i64(b"9223372036854775807").unwrap(), i64::MAX);
    assert_eq!(
        parse_i64(b"9223372036854775808").unwrap_err().kind,
        ErrorKind::InvalidType
    );
    assert_eq!(
        parse_i64(b"-9223372036854775809").unwrap_err().kind,
        ErrorKind::InvalidType
    );
    assert_eq!(parse_i64(b"-").unwrap_err().kind, ErrorKind::InvalidType);
}

#[test]
fn coerce_bool_literals_only() {
    assert_eq!(parse_bool(b"true").unwrap(), true);
    assert_eq!(parse_bool(b"false").unwrap(), false);
    // `1` and `0` are not booleans here
    assert_eq!(parse_bool(b"1").unwrap_err().kind, ErrorKind::InvalidType);
    assert_eq!(parse_bool(b"0").unwrap_err().kind, ErrorKind::InvalidType);
    assert_eq!(parse_bool(b"True").unwrap_err().kind, ErrorKind::InvalidType);
}

#[test]
fn custom_errors_carry_their_kind() {
    // the kind a driving consumer raises for its own failures
    let e = Error::new(ErrorKind::Custom, b"unknown field".to_vec());
    assert_eq!(e.kind, ErrorKind::Custom);
    assert_eq!(e.context, b"unknown field".to_vec());
}

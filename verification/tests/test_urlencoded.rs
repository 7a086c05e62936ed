//! Tests of the plain UrlEncoded mode: one value per key, last wins.

use querystring::coerce::{match_unit_variant, parse_u64};
use querystring::{from_bytes, Config, ErrorKind, Group, OptSlice, QSDeserializer};

fn entries(input: &[u8], config: Config) -> Vec<(Vec<u8>, Group)> {
    let mut d: QSDeserializer = from_bytes(input, config).unwrap();
    let mut out = Vec::new();
    while let Some(k) = d.next_key() {
        let g = d.next_value();
        out.push((k, g));
    }
    out
}

fn group_for(input: &[u8], config: Config, key: &[u8]) -> Group {
    for (k, g) in entries(input, config) {
        if k.as_slice() == key {
            return g;
        }
    }
    panic!("key not found");
}

fn bytes_of(v: OptSlice) -> Vec<u8> {
    match v {
        OptSlice::Value(t) => t.decode().unwrap(),
        OptSlice::Absent => panic!("absent value"),
    }
}

fn scalar_bytes(g: Group) -> Vec<u8> {
    bytes_of(g.scalar().unwrap())
}

#[derive(Debug, PartialEq)]
struct UrlEncoded {
    foo: Vec<u8>,
    foobar: u32,
    bar: Option<u32>,
}

#[test]
fn deserialize_urlencoded() {
    let input: &[u8] = b"foo=bar&foobar=1337&foo=baz&bar=13";
    let mut foo: Option<Vec<u8>> = None;
    let mut foobar: Option<u32> = None;
    let mut bar: Option<u32> = None;
    for (k, g) in entries(input, Config::UrlEncoded) {
        match k.as_slice() {
            b"foo" => foo = Some(scalar_bytes(g)),
            b"foobar" => foobar = Some(parse_u64(&scalar_bytes(g)).unwrap() as u32),
            b"bar" => bar = Some(parse_u64(&scalar_bytes(g)).unwrap() as u32),
            _ => {},
        }
    }
    assert_eq!(
        UrlEncoded { foo: foo.unwrap(), foobar: foobar.unwrap(), bar },
        UrlEncoded { foo: b"baz".to_vec(), foobar: 1337, bar: Some(13) }
    );
}

#[test]
fn deserialize_repeated_keys() {
    // repeated keys keep the last value
    let g = group_for(b"value=1&value=3&value=1337", Config::UrlEncoded, b"value");
    assert_eq!(parse_u64(&scalar_bytes(g)).unwrap(), 1337);
}

#[test]
fn test_urlencoded_deserialize_decoded_keys() {
    // `v%61lu%65`, `valu%65` and `value` all decode to the key `value`
    let g = group_for(b"v%61lu%65=1&valu%65=2&value=3", Config::UrlEncoded, b"value");
    assert_eq!(parse_u64(&scalar_bytes(g)).unwrap(), 3);
}

#[test]
fn deserialize_error_type() {
    // this mode holds no sequences: a fixed-size sequence target fails
    let g = group_for(
        b"value=1&value=3&value=1337&value=999",
        Config::UrlEncoded,
        b"value",
    );
    assert_eq!(g.sequence_exact(3).unwrap_err().kind, ErrorKind::InvalidType);

    // a tuple target asks for a sequence too
    let g = group_for(
        b"value=1&value=3&value=1337&value=999",
        Config::UrlEncoded,
        b"value",
    );
    assert_eq!(g.sequence().unwrap_err().kind, ErrorKind::InvalidType);

    // an enum without unit variants can match no decoded text
    let no_unit_variants: Vec<Vec<u8>> = Vec::new();
    let g = group_for(b"value=A&value=B&key=value", Config::UrlEncoded, b"value");
    assert_eq!(
        match_unit_variant(&scalar_bytes(g), &no_unit_variants).unwrap_err().kind,
        ErrorKind::InvalidType
    );
    let g = group_for(b"value=B", Config::UrlEncoded, b"value");
    assert_eq!(
        match_unit_variant(&scalar_bytes(g), &no_unit_variants).unwrap_err().kind,
        ErrorKind::InvalidType
    );
    let g = group_for(b"value=C", Config::UrlEncoded, b"value");
    assert_eq!(
        match_unit_variant(&scalar_bytes(g), &no_unit_variants).unwrap_err().kind,
        ErrorKind::InvalidType
    );
}

#[test]
fn plus_and_percent_decode_values() {
    // `+` is a space and `%2B` is a literal plus, decoded only when read
    let g = group_for(b"q=1+2%2B3", Config::UrlEncoded, b"q");
    assert_eq!(scalar_bytes(g), b"1 2+3".to_vec());
}

#[test]
fn absent_value_differs_from_empty() {
    // `k` has no `=`: absent; `j=` has one: present and empty
    let g = group_for(b"k&j=", Config::UrlEncoded, b"k");
    assert!(matches!(g.scalar().unwrap(), OptSlice::Absent));
    let g = group_for(b"k&j=", Config::UrlEncoded, b"j");
    assert_eq!(scalar_bytes(g), Vec::<u8>::new());
}

#[test]
fn first_occurrence_fixes_position() {
    // overwriting a value never moves its key
    let ks: Vec<Vec<u8>> = entries(b"a=1&b=2&a=3", Config::UrlEncoded)
        .into_iter()
        .map(|(k, _)| k)
        .collect();
    assert_eq!(ks, vec![b"a".to_vec(), b"b".to_vec()]);
}

//! Tests of the Delimiter mode: one value per key, split at a chosen byte.

use querystring::coerce::parse_u64;
use querystring::{from_bytes, Config, Group, OptSlice, QSDeserializer};

fn group_for(input: &[u8], config: Config, key: &[u8]) -> Group {
    let mut d: QSDeserializer = from_bytes(input, config).unwrap();
    while let Some(k) = d.next_key() {
        let g = d.next_value();
        if k.as_slice() == key {
            return g;
        }
    }
    panic!("key not found");
}

fn bytes_of(v: OptSlice) -> Vec<u8> {
    match v {
        OptSlice::Value(t) => t.decode().unwrap(),
        OptSlice::Absent => panic!("absent value"),
    }
}

fn seq_u64(g: Group) -> Vec<u64> {
    let mut out = Vec::new();
    for v in g.sequence().unwrap() {
        out.push(parse_u64(&bytes_of(v)).unwrap());
    }
    out
}

#[test]
fn delimiter_splits_value() {
    // the configured separator cuts the value into a sequence
    let g = group_for(b"vec=1337|11", Config::Delimiter(b'|'), b"vec");
    assert_eq!(seq_u64(g), vec![1337, 11]);
}

#[test]
fn delimiter_absent_separator_is_single() {
    // without the separator the sequence holds the one value ...
    let g = group_for(b"vec=1337", Config::Delimiter(b'|'), b"vec");
    assert_eq!(seq_u64(g), vec![1337]);

    // ... and a scalar target reads it whole
    let g = group_for(b"vec=1337", Config::Delimiter(b'|'), b"vec");
    assert_eq!(parse_u64(&bytes_of(g.scalar().unwrap())).unwrap(), 1337);
}

#[test]
fn delimiter_scalar_ignores_separator() {
    // a scalar target gets the raw value, separator and all
    let g = group_for(b"vec=13%7C37", Config::Delimiter(b'|'), b"vec");
    assert_eq!(bytes_of(g.scalar().unwrap()), b"13|37".to_vec());
}

#[test]
fn delimiter_last_value_wins() {
    // pair collection behaves like the plain mode
    let g = group_for(b"v=1|2&v=3|4", Config::Delimiter(b'|'), b"v");
    assert_eq!(seq_u64(g), vec![3, 4]);
}

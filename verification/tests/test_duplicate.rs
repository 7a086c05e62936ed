//! Tests of the Duplicate mode: every occurrence of a key is kept.

use querystring::coerce::{match_unit_variant, parse_u64};
use querystring::{from_bytes, Config, ErrorKind, Group, OptSlice, QSDeserializer};

fn entries(input: &[u8], config: Config) -> Vec<(Vec<u8>, Group)> {
    let mut d: QSDeserializer = from_bytes(input, config).unwrap();
    let mut out = Vec::new();
    while let Some(k) = d.next_key() {
        let g = d.next_value();
        out.push((k, g));
    }
    out
}

fn group_for(input: &[u8], config: Config, key: &[u8]) -> Group {
    for (k, g) in entries(input, config) {
        if k.as_slice() == key {
            return g;
        }
    }
    panic!("key not found");
}

fn bytes_of(v: OptSlice) -> Vec<u8> {
    match v {
        OptSlice::Value(t) => t.decode().unwrap(),
        OptSlice::Absent => panic!("absent value"),
    }
}

fn scalar_bytes(g: Group) -> Vec<u8> {
    bytes_of(g.scalar().unwrap())
}

fn seq_bytes(g: Group) -> Vec<Vec<u8>> {
    let mut out = Vec::new();
    for v in g.sequence().unwrap() {
        out.push(bytes_of(v));
    }
    out
}

fn seq_u64(g: Group) -> Vec<u64> {
    let mut out = Vec::new();
    for b in seq_bytes(g) {
        out.push(parse_u64(&b).unwrap());
    }
    out
}

#[derive(Debug, PartialEq)]
struct Duplicate {
    foo: Vec<u8>,
    foobar: u32,
    bar: Option<u32>,
    vec: Vec<u32>,
}

#[test]
fn deserialize_duplicate() {
    let input: &[u8] = b"foo=bar&foobar=1337&foo=baz&bar=13&vec=1337&vec=11";
    let mut foo: Option<Vec<u8>> = None;
    let mut foobar: Option<u32> = None;
    let mut bar: Option<u32> = None;
    let mut vec_field: Option<Vec<u32>> = None;
    for (k, g) in entries(input, Config::Duplicate) {
        match k.as_slice() {
            b"foo" => foo = Some(scalar_bytes(g)),
            b"foobar" => foobar = Some(parse_u64(&scalar_bytes(g)).unwrap() as u32),
            b"bar" => bar = Some(parse_u64(&scalar_bytes(g)).unwrap() as u32),
            b"vec" => {
                let mut v: Vec<u32> = Vec::new();
                for n in seq_u64(g) {
                    v.push(n as u32);
                }
                vec_field = Some(v);
            },
            _ => {},
        }
    }
    assert_eq!(
        Duplicate { foo: foo.unwrap(), foobar: foobar.unwrap(), bar, vec: vec_field.unwrap() },
        Duplicate { foo: b"baz".to_vec(), foobar: 1337, bar: Some(13), vec: vec![1337, 11] }
    );
}

#[test]
fn deserialize_value() {
    // a scalar target takes the last occurrence
    let g = group_for(b"value=1&value=3&value=1337", Config::Duplicate, b"value");
    assert_eq!(parse_u64(&scalar_bytes(g)).unwrap(), 1337);

    // the same scalar as text
    let g = group_for(b"value=1&value=3&value=1337", Config::Duplicate, b"value");
    assert_eq!(scalar_bytes(g), b"1337".to_vec());
}

#[test]
fn deserialize_sequence() {
    // vector
    let g = group_for(b"value=1&value=3&value=1337", Config::Duplicate, b"value");
    assert_eq!(seq_u64(g), vec![1, 3, 1337]);

    // fixed-size array of three
    let g = group_for(b"value=1&value=3&value=1337", Config::Duplicate, b"value");
    let vs = g.sequence_exact(3).unwrap();
    let mut arr: [u64; 3] = [0; 3];
    let mut i = 0;
    for v in vs {
        arr[i] = parse_u64(&bytes_of(v)).unwrap();
        i += 1;
    }
    assert_eq!(arr, [1, 3, 1337]);

    // three-element tuple
    let g = group_for(b"value=1&value=3&value=1337", Config::Duplicate, b"value");
    let vs = seq_bytes(g);
    let tuple = (
        parse_u64(&vs[0]).unwrap(),
        parse_u64(&vs[1]).unwrap(),
        parse_u64(&vs[2]).unwrap(),
    );
    assert_eq!(tuple, (1, 3, 1337));

    // mixed tuple of text and numbers
    let g = group_for(b"value=1&value=3&value=1337", Config::Duplicate, b"value");
    let vs = seq_bytes(g);
    let tuple = (vs[0].clone(), vs[1].clone(), parse_u64(&vs[2]).unwrap());
    assert_eq!(tuple, (b"1".to_vec(), b"3".to_vec(), 1337));

    #[derive(Debug, PartialEq)]
    enum Side {
        Left,
        Right,
        God,
    }

    // unit enums in sequence, matched case-sensitively by variant name
    let variants: Vec<Vec<u8>> = vec![b"Left".to_vec(), b"Right".to_vec(), b"God".to_vec()];
    let g = group_for(b"value=God&value=Left&value=Right", Config::Duplicate, b"value");
    let mut sides: Vec<Side> = Vec::new();
    for b in seq_bytes(g) {
        sides.push(match match_unit_variant(&b, &variants).unwrap() {
            0 => Side::Left,
            1 => Side::Right,
            _ => Side::God,
        });
    }
    assert_eq!(sides, vec![Side::God, Side::Left, Side::Right]);
}

#[test]
fn test_duplicate_deserialize_decoded_keys() {
    // `v%61lu%65`, `valu%65` and `value` all decode to the key `value`
    let g = group_for(b"v%61lu%65=1&valu%65=2&value=3", Config::Duplicate, b"value");
    assert_eq!(
        seq_bytes(g),
        vec![b"1".to_vec(), b"2".to_vec(), b"3".to_vec()]
    );
}

#[test]
fn deserialize_invalid_sequence() {
    // four values into a fixed-size sequence of three
    let g = group_for(
        b"value=1&value=3&value=1337&value=999",
        Config::Duplicate,
        b"value",
    );
    assert_eq!(g.sequence_exact(3).unwrap_err().kind, ErrorKind::InvalidLength);

    // four values into a three-element tuple
    let g = group_for(
        b"value=1&value=3&value=1337&value=999",
        Config::Duplicate,
        b"value",
    );
    assert!(g.sequence_exact(3).is_err());

    // tuple of the right arity but mismatched element types
    let g = group_for(b"value=foo&value=bar&value=baz", Config::Duplicate, b"value");
    let vs = g.sequence_exact(3).unwrap();
    let middle = bytes_of(vs.into_iter().nth(1).unwrap());
    assert_eq!(parse_u64(&middle).unwrap_err().kind, ErrorKind::InvalidType);
}

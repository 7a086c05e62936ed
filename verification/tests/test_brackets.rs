//! Tests of the Brackets mode: `root[segment]` keys group under the root.

use querystring::coerce::parse_u64;
use querystring::{from_bytes, Config, Group, OptSlice, QSDeserializer};

fn group_for(input: &[u8], config: Config, key: &[u8]) -> Group {
    let mut d: QSDeserializer = from_bytes(input, config).unwrap();
    while let Some(k) = d.next_key() {
        let g = d.next_value();
        if k.as_slice() == key {
            return g;
        }
    }
    panic!("key not found");
}

fn bytes_of(v: OptSlice) -> Vec<u8> {
    match v {
        OptSlice::Value(t) => t.decode().unwrap(),
        OptSlice::Absent => panic!("absent value"),
    }
}

fn seq_u64(g: Group) -> Vec<u64> {
    let mut out = Vec::new();
    for v in g.sequence().unwrap() {
        out.push(parse_u64(&bytes_of(v)).unwrap());
    }
    out
}

#[test]
fn brackets_first_appearance_order() {
    // named slots stand in first-appearance order, never sorted by the
    // segment text: 3, 2, 1 stay 300, 200, 100
    let g = group_for(b"n[3]=300&n[2]=200&n[1]=100", Config::Brackets, b"n");
    assert_eq!(seq_u64(g), vec![300, 200, 100]);
}

#[test]
fn brackets_named_slot_overwrites() {
    // a repeated segment overwrites its value but keeps its position
    let g = group_for(b"n[a]=1&n[b]=2&n[a]=3", Config::Brackets, b"n");
    assert_eq!(seq_u64(g), vec![3, 2]);
}

#[test]
fn brackets_mixed_group_positional_first() {
    // `n` and `n[]` append positionally; named slots follow them
    let g = group_for(b"n[]=1&n=2&n[a]=3&n[b]=4", Config::Brackets, b"n");
    assert_eq!(seq_u64(g), vec![1, 2, 3, 4]);
}

#[test]
fn brackets_single_level_only() {
    // a second bracket stays literal text inside the segment
    let g = group_for(b"n[a][b]=7", Config::Brackets, b"n");
    match g {
        Group::Bracketed(bg) => {
            assert_eq!(bg.positional.len(), 0);
            assert_eq!(bg.named.len(), 1);
            let entry = bg.named.into_iter().next().unwrap();
            assert_eq!(entry.key, b"a][b".to_vec());
            assert_eq!(bytes_of(entry.value), b"7".to_vec());
        },
        _ => panic!("expected a bracket group"),
    }
}

#[test]
fn brackets_scalar_takes_last() {
    let g = group_for(b"n[3]=300&n[2]=200&n[1]=100", Config::Brackets, b"n");
    assert_eq!(parse_u64(&bytes_of(g.scalar().unwrap())).unwrap(), 100);
}

#[test]
fn brackets_roots_group_by_decoded_text() {
    // the root is percent-decoded before grouping
    let g = group_for(b"%6E[]=1&n[]=2", Config::Brackets, b"n");
    assert_eq!(seq_u64(g), vec![1, 2]);
}

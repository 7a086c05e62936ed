//! Splitting the raw input: fields at `&`, the key from the value at the
//! first `=` of a field. Nothing is percent-decoded at this stage.

use vstd::prelude::*;
use vstd::slice::{slice_subrange, slice_to_vec};

use crate::slices::{OptSlice, RawSlice};

verus! {

/// The byte `&`, which separates fields.
pub const AMPERSAND: u8 = 38;

/// The byte `=`, which separates a key from its value.
pub const EQUALS: u8 = 61;

/// Index of the first occurrence of `b` in `s`.
pub open spec fn find_byte(s: Seq<u8>, b: u8) -> Option<int>
    decreases s.len(),
{
    if s.len() == 0 {
        None
    } else if s[0] == b {
        Some(0int)
    } else {
        match find_byte(s.skip(1), b) {
            Some(i) => Some(i + 1),
            None => None,
        }
    }
}

/// What `find_byte` returns: the first index holding `b`, if any.
pub proof fn lemma_find_byte(s: Seq<u8>, b: u8)
    ensures
        match find_byte(s, b) {
            Some(i) => 0 <= i < s.len() && s[i] == b && (forall|j: int|
                0 <= j < i ==> s[j] != b),
            None => forall|j: int| 0 <= j < s.len() ==> s[j] != b,
        },
    decreases s.len(),
{
    if s.len() == 0 {
    } else if s[0] == b {
    } else {
        lemma_find_byte(s.skip(1), b);
        match find_byte(s.skip(1), b) {
            Some(i) => {
                assert(s[i + 1] == s.skip(1)[i]);
                assert forall|j: int| 0 <= j < i + 1 implies s[j] != b by {
                    if j > 0 {
                        assert(s[j] == s.skip(1)[j - 1]);
                    }
                }
            },
            None => {
                assert forall|j: int| 0 <= j < s.len() implies s[j] != b by {
                    if j > 0 {
                        assert(s[j] == s.skip(1)[j - 1]);
                    }
                }
            },
        }
    }
}

/// The converse direction: a first occurrence pins `find_byte` down.
pub proof fn lemma_find_byte_exact(s: Seq<u8>, b: u8, i: int)
    requires
        0 <= i < s.len(),
        s[i] == b,
        forall|j: int| 0 <= j < i ==> s[j] != b,
    ensures
        find_byte(s, b) == Some(i),
{
    lemma_find_byte(s, b);
}

/// Split at every occurrence of `sep`; `n` separators give `n + 1` segments,
/// so the result is never empty and empty segments are kept.
pub open spec fn split_seq(s: Seq<u8>, sep: u8) -> Seq<Seq<u8>>
    decreases s.len() via split_seq_decreases
{
    match find_byte(s, sep) {
        None => seq![s],
        Some(i) => seq![s.take(i)] + split_seq(s.skip(i + 1), sep),
    }
}

#[via_fn]
proof fn split_seq_decreases(s: Seq<u8>, sep: u8) {
    lemma_find_byte(s, sep);
}

/// A sequence without the separator splits into itself alone.
pub proof fn lemma_split_no_separator(s: Seq<u8>, sep: u8)
    requires
        forall|i: int| 0 <= i < s.len() ==> s[i] != sep,
    ensures
        split_seq(s, sep) == seq![s],
{
    lemma_find_byte(s, sep);
    match find_byte(s, sep) {
        Some(i) => {
            assert(false);
        },
        None => {},
    }
}

/// First occurrence of `b` in a byte slice.
pub fn find_byte_at(s: &[u8], b: u8) -> (r: Option<usize>)
    ensures
        match r {
            Some(i) => find_byte(s@, b) == Some(i as int),
            None => find_byte(s@, b) is None,
        },
{
    let mut i: usize = 0;
    while i < s.len()
        invariant
            0 <= i <= s@.len(),
            forall|j: int| 0 <= j < i ==> s@[j] != b,
        decreases s@.len() - i,
    {
        if s[i] == b {
            proof {
                lemma_find_byte_exact(s@, b, i as int);
            }
            return Some(i);
        }
        i = i + 1;
    }
    proof {
        lemma_find_byte(s@, b);
        match find_byte(s@, b) {
            Some(k) => {
                assert(false);
            },
            None => {},
        }
    }
    None
}

/// Copies the byte range `from..to` out of a slice.
pub fn sub_vec(s: &[u8], from: usize, to: usize) -> (r: Vec<u8>)
    requires
        0 <= from <= to <= s@.len(),
    ensures
        r@ == s@.subrange(from as int, to as int),
{
    slice_to_vec(slice_subrange(s, from, to))
}

/// A byte buffer's deep view is its view.
pub proof fn lemma_bytes_deep_view(v: Vec<u8>)
    ensures
        v.deep_view() == v@,
{
    assert(v.deep_view() =~= v@);
}

/// Splits `s` at every occurrence of `sep`, keeping empty segments.
pub fn split_bytes(s: &[u8], sep: u8) -> (r: Vec<Vec<u8>>)
    ensures
        r.deep_view() == split_seq(s@, sep),
{
    let mut r: Vec<Vec<u8>> = Vec::new();
    let mut start: usize = 0;
    let mut i: usize = 0;
    proof {
        assert(s@.skip(0) =~= s@);
    }
    while i < s.len()
        invariant
            0 <= start <= i <= s@.len(),
            forall|j: int| start <= j < i ==> s@[j] != sep,
            split_seq(s@, sep) == r.deep_view() + split_seq(s@.skip(start as int), sep),
        decreases s@.len() - i,
    {
        if s[i] == sep {
            let piece = sub_vec(s, start, i);
            let ghost prev = r.deep_view();
            r.push(piece);
            proof {
                let t = s@.skip(start as int);
                assert(t[i - start] == s@[i as int]);
                assert forall|j: int| 0 <= j < i - start implies t[j] != sep by {
                    assert(t[j] == s@[start + j]);
                }
                lemma_find_byte_exact(t, sep, i - start);
                assert(t.take(i - start) =~= s@.subrange(start as int, i as int));
                assert(t.skip(i - start + 1) =~= s@.skip(i + 1));
                lemma_bytes_deep_view(piece);
                assert(r.deep_view() =~= prev.push(piece@));
                assert(prev + (seq![piece@] + split_seq(s@.skip(i + 1), sep)) =~= prev.push(
                    piece@,
                ) + split_seq(s@.skip(i + 1), sep));
            }
            start = i + 1;
        }
        i = i + 1;
    }
    let piece = sub_vec(s, start, s.len());
    let ghost prev = r.deep_view();
    r.push(piece);
    proof {
        let t = s@.skip(start as int);
        assert forall|j: int| 0 <= j < t.len() implies t[j] != sep by {
            assert(t[j] == s@[start + j]);
        }
        lemma_split_no_separator(t, sep);
        assert(t =~= s@.subrange(start as int, s@.len() as int));
        lemma_bytes_deep_view(piece);
        assert(r.deep_view() =~= prev.push(piece@));
        assert(prev + seq![piece@] =~= prev.push(piece@));
    }
    r
}

/// The key part of one raw field: the bytes before the first `=` (the whole
/// field when it has none).
pub open spec fn field_key(f: Seq<u8>) -> Seq<u8> {
    match find_byte(f, EQUALS) {
        None => f,
        Some(i) => f.take(i),
    }
}

/// The value part: absent when the field has no `=`.
pub open spec fn field_value(f: Seq<u8>) -> Option<Seq<u8>> {
    match find_byte(f, EQUALS) {
        None => None,
        Some(i) => Some(f.skip(i + 1)),
    }
}

/// One raw `key[=value]` pair, key and value still undecoded.
pub struct RawPair {
    pub key: Vec<u8>,
    pub value: OptSlice,
}

impl DeepView for RawPair {
    type V = (Seq<u8>, Option<Seq<u8>>);

    open spec fn deep_view(&self) -> (Seq<u8>, Option<Seq<u8>>) {
        (self.key@, self.value@)
    }
}

/// All raw pairs of the input, in field order.
pub open spec fn raw_pairs(input: Seq<u8>) -> Seq<(Seq<u8>, Option<Seq<u8>>)> {
    split_seq(input, AMPERSAND).map_values(|f: Seq<u8>| (field_key(f), field_value(f)))
}

/// Splits one raw field into its key and its (possibly absent) value.
fn split_field(f: &[u8]) -> (r: RawPair)
    ensures
        r.deep_view() == (field_key(f@), field_value(f@)),
{
    match find_byte_at(f, EQUALS) {
        None => RawPair { key: slice_to_vec(f), value: OptSlice::Absent },
        Some(i) => {
            let n = f.len();
            proof {
                lemma_find_byte(f@, EQUALS);
            }
            let key = sub_vec(f, 0, i);
            let value = RawSlice::new(sub_vec(f, i + 1, n));
            proof {
                assert(f@.take(find_byte(f@, EQUALS).unwrap()) =~= f@.subrange(0, i as int));
                assert(f@.skip(find_byte(f@, EQUALS).unwrap() + 1) =~= f@.subrange(
                    i + 1,
                    f@.len() as int,
                ));
            }
            RawPair { key, value: OptSlice::Value(value) }
        },
    }
}

/// Cuts the whole input into raw pairs: fields at `&`, then each field at
/// its first `=`.
pub fn parse_raw_pairs(input: &[u8]) -> (r: Vec<RawPair>)
    ensures
        r.deep_view() == raw_pairs(input@),
{
    let fields = split_bytes(input, AMPERSAND);
    let mut r: Vec<RawPair> = Vec::new();
    let mut i: usize = 0;
    while i < fields.len()
        invariant
            0 <= i <= fields@.len(),
            fields.deep_view() == split_seq(input@, AMPERSAND),
            r.deep_view() == raw_pairs(input@).take(i as int),
        decreases fields@.len() - i,
    {
        let ghost prev = r.deep_view();
        let p = split_field(fields[i].as_slice());
        proof {
            lemma_bytes_deep_view(fields@[i as int]);
            assert(fields@[i as int]@ == split_seq(input@, AMPERSAND)[i as int]);
        }
        r.push(p);
        proof {
            assert(r.deep_view() =~= prev.push(p.deep_view()));
            assert(r.deep_view() =~= raw_pairs(input@).take(i + 1));
        }
        i = i + 1;
    }
    proof {
        assert(raw_pairs(input@).take(fields@.len() as int) =~= raw_pairs(input@));
    }
    r
}

} // verus!

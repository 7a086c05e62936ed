//! Key-indexed entry lists: every mode folds its pairs into an ordered list
//! keyed by the decoded key text, where a key's position is fixed by its
//! first occurrence.

use vstd::prelude::*;

use crate::slices::{pct_decode, OptSlice};

verus! {

/// Index of the first entry whose key is `k`.
pub open spec fn find_key<V>(entries: Seq<(Seq<u8>, V)>, k: Seq<u8>) -> Option<int>
    decreases entries.len(),
{
    if entries.len() == 0 {
        None
    } else if entries[0].0 == k {
        Some(0int)
    } else {
        match find_key(entries.skip(1), k) {
            Some(i) => Some(i + 1),
            None => None,
        }
    }
}

/// The value stored under `k`, if any.
pub open spec fn lookup<V>(entries: Seq<(Seq<u8>, V)>, k: Seq<u8>) -> Option<V> {
    match find_key(entries, k) {
        Some(i) => Some(entries[i].1),
        None => None,
    }
}

/// What `find_key` returns: the first entry with key `k`, if any.
pub proof fn lemma_find_key<V>(entries: Seq<(Seq<u8>, V)>, k: Seq<u8>)
    ensures
        match find_key(entries, k) {
            Some(i) => 0 <= i < entries.len() && entries[i].0 == k && (forall|j: int|
                0 <= j < i ==> entries[j].0 != k),
            None => forall|j: int| 0 <= j < entries.len() ==> entries[j].0 != k,
        },
    decreases entries.len(),
{
    if entries.len() == 0 {
    } else if entries[0].0 == k {
    } else {
        lemma_find_key(entries.skip(1), k);
        match find_key(entries.skip(1), k) {
            Some(i) => {
                assert(entries[i + 1] == entries.skip(1)[i]);
                assert forall|j: int| 0 <= j < i + 1 implies entries[j].0 != k by {
                    if j > 0 {
                        assert(entries[j] == entries.skip(1)[j - 1]);
                    }
                }
            },
            None => {
                assert forall|j: int| 0 <= j < entries.len() implies entries[j].0 != k by {
                    if j > 0 {
                        assert(entries[j] == entries.skip(1)[j - 1]);
                    }
                }
            },
        }
    }
}

/// The converse direction: a first occurrence pins `find_key` down.
pub proof fn lemma_find_key_exact<V>(entries: Seq<(Seq<u8>, V)>, k: Seq<u8>, i: int)
    requires
        0 <= i < entries.len(),
        entries[i].0 == k,
        forall|j: int| 0 <= j < i ==> entries[j].0 != k,
    ensures
        find_key(entries, k) == Some(i),
{
    lemma_find_key(entries, k);
}

/// No entry holds `k`, so `find_key` misses.
pub proof fn lemma_find_key_none<V>(entries: Seq<(Seq<u8>, V)>, k: Seq<u8>)
    requires
        forall|j: int| 0 <= j < entries.len() ==> entries[j].0 != k,
    ensures
        find_key(entries, k) is None,
{
    lemma_find_key(entries, k);
}

/// Replaces the value under `k` in place, or appends a new entry: the
/// overwrite keeps the position the key earned at its first occurrence.
pub open spec fn upsert<V>(entries: Seq<(Seq<u8>, V)>, k: Seq<u8>, v: V) -> Seq<(Seq<u8>, V)> {
    match find_key(entries, k) {
        Some(i) => entries.update(i, (k, v)),
        None => entries.push((k, v)),
    }
}

/// After an upsert, `k` holds exactly the written value.
pub proof fn lemma_upsert_same<V>(entries: Seq<(Seq<u8>, V)>, k: Seq<u8>, v: V)
    ensures
        lookup(upsert(entries, k, v), k) == Some(v),
{
    lemma_find_key(entries, k);
    let e2 = upsert(entries, k, v);
    match find_key(entries, k) {
        Some(i) => {
            assert forall|j: int| 0 <= j < i implies e2[j].0 != k by {
                assert(e2[j] == entries[j]);
            }
            lemma_find_key_exact(e2, k, i);
        },
        None => {
            lemma_find_key_exact(e2, k, entries.len() as int);
        },
    }
}

/// An upsert under `k` leaves every other key's binding alone.
pub proof fn lemma_upsert_other<V>(entries: Seq<(Seq<u8>, V)>, k: Seq<u8>, v: V, k2: Seq<u8>)
    requires
        k2 != k,
    ensures
        lookup(upsert(entries, k, v), k2) == lookup(entries, k2),
{
    lemma_find_key(entries, k);
    lemma_find_key(entries, k2);
    let e2 = upsert(entries, k, v);
    match find_key(entries, k2) {
        Some(m) => {
            assert(e2[m].0 == k2);
            assert forall|j: int| 0 <= j < m implies e2[j].0 != k2 by {
                if e2[j] != entries[j] {
                    assert(e2[j].0 == k);
                }
            }
            lemma_find_key_exact(e2, k2, m);
            assert(e2[m].1 == entries[m].1);
        },
        None => {
            assert forall|j: int| 0 <= j < e2.len() implies e2[j].0 != k2 by {
                if j < entries.len() && e2[j] == entries[j] {
                } else {
                    assert(e2[j].0 == k);
                }
            }
            lemma_find_key_none(e2, k2);
        },
    }
}

/// The keys of an entry list, in order.
pub open spec fn keys_of<V>(entries: Seq<(Seq<u8>, V)>) -> Seq<Seq<u8>> {
    entries.map_values(|e: (Seq<u8>, V)| e.0)
}

/// An upsert never reorders keys: it keeps them, or appends the new one.
pub proof fn lemma_upsert_keys<V>(entries: Seq<(Seq<u8>, V)>, k: Seq<u8>, v: V)
    ensures
        keys_of(upsert(entries, k, v)) == if find_key(entries, k) is Some {
            keys_of(entries)
        } else {
            keys_of(entries).push(k)
        },
{
    lemma_find_key(entries, k);
    let e2 = upsert(entries, k, v);
    match find_key(entries, k) {
        Some(i) => {
            assert(keys_of(e2) =~= keys_of(entries));
        },
        None => {
            assert(keys_of(e2) =~= keys_of(entries).push(k));
        },
    }
}

/// Percent-decodes every key of the raw pairs, values kept raw; `None` when
/// any key holds a malformed escape.
pub open spec fn decoded_key_pairs(ps: Seq<(Seq<u8>, Option<Seq<u8>>)>) -> Option<
    Seq<(Seq<u8>, Option<Seq<u8>>)>,
>
    decreases ps.len(),
{
    if ps.len() == 0 {
        Some(Seq::empty())
    } else {
        match (pct_decode(ps[0].0), decoded_key_pairs(ps.skip(1))) {
            (Some(k), Some(rest)) => Some(seq![(k, ps[0].1)] + rest),
            _ => None,
        }
    }
}

/// Key decoding is pointwise: positions, order and values never change.
pub proof fn lemma_decoded_keys_pointwise(
    ps: Seq<(Seq<u8>, Option<Seq<u8>>)>,
    dp: Seq<(Seq<u8>, Option<Seq<u8>>)>,
)
    requires
        decoded_key_pairs(ps) == Some(dp),
    ensures
        dp.len() == ps.len(),
        forall|i: int|
            0 <= i < ps.len() ==> pct_decode(ps[i].0) == Some(#[trigger] dp[i].0) && dp[i].1
                == ps[i].1,
    decreases ps.len(),
{
    if ps.len() == 0 {
    } else {
        let rest = decoded_key_pairs(ps.skip(1)).unwrap();
        lemma_decoded_keys_pointwise(ps.skip(1), rest);
        assert forall|i: int|
            0 <= i < ps.len() implies pct_decode(ps[i].0) == Some(#[trigger] dp[i].0) && dp[i].1
            == ps[i].1 by {
            if i > 0 {
                assert(ps[i] == ps.skip(1)[i - 1]);
                assert(dp[i] == rest[i - 1]);
            }
        }
    }
}

/// One entry of a flat mode's collection: a decoded key and its raw value.
#[derive(Debug)]
pub struct FlatEntry {
    pub key: Vec<u8>,
    pub value: OptSlice,
}

impl DeepView for FlatEntry {
    type V = (Seq<u8>, Option<Seq<u8>>);

    open spec fn deep_view(&self) -> (Seq<u8>, Option<Seq<u8>>) {
        (self.key@, self.value@)
    }
}

/// Byte-for-byte equality of two slices.
pub fn bytes_eq(a: &[u8], b: &[u8]) -> (r: bool)
    ensures
        r == (a@ == b@),
{
    if a.len() != b.len() {
        return false;
    }
    let mut i: usize = 0;
    while i < a.len()
        invariant
            0 <= i <= a@.len(),
            a@.len() == b@.len(),
            forall|j: int| 0 <= j < i ==> a@[j] == b@[j],
        decreases a@.len() - i,
    {
        if a[i] != b[i] {
            return false;
        }
        i = i + 1;
    }
    proof {
        assert(a@ =~= b@);
    }
    true
}

/// Applies one pair to a flat collection: overwrite in place, or append.
#[verifier::loop_isolation(false)]
pub fn flat_upsert(entries: &mut Vec<FlatEntry>, key: Vec<u8>, value: OptSlice)
    ensures
        final(entries).deep_view() == upsert(old(entries).deep_view(), key@, value@),
{
    let ghost orig = entries.deep_view();
    let mut i: usize = 0;
    while i < entries.len()
        invariant
            0 <= i <= entries@.len(),
            entries.deep_view() == orig,
            forall|j: int| 0 <= j < i ==> orig[j].0 != key@,
        decreases entries@.len() - i,
    {
        if bytes_eq(entries[i].key.as_slice(), key.as_slice()) {
            proof {
                lemma_find_key_exact(orig, key@, i as int);
            }
            let _ = entries.remove(i);
            entries.insert(i, FlatEntry { key, value });
            proof {
                assert(entries.deep_view() =~= orig.update(i as int, (key@, value@)));
            }
            return ;
        }
        i = i + 1;
    }
    proof {
        lemma_find_key_none(orig, key@);
    }
    entries.push(FlatEntry { key, value });
    proof {
        assert(entries.deep_view() =~= orig.push((key@, value@)));
    }
}

} // verus!

//! The Duplicate mode: every occurrence of a key is kept, in encounter
//! order, grouped under the key's first occurrence. A consumer that wants a
//! scalar takes the group's last value; one that wants a sequence takes the
//! whole group.

use vstd::prelude::*;

use crate::entries::{
    decoded_key_pairs, find_key, lemma_find_key_exact, lemma_find_key_none, bytes_eq,
};
use crate::error::{Error, ErrorKind};
use crate::slices::{percent_decode, OptSlice};
use crate::split::{parse_raw_pairs, raw_pairs, RawPair};

verus! {

/// Appends one value to its key's group, or opens a new group at the end.
pub open spec fn group_append(
    entries: Seq<(Seq<u8>, Seq<Option<Seq<u8>>>)>,
    k: Seq<u8>,
    v: Option<Seq<u8>>,
) -> Seq<(Seq<u8>, Seq<Option<Seq<u8>>>)> {
    match find_key(entries, k) {
        Some(i) => entries.update(i, (k, entries[i].1.push(v))),
        None => entries.push((k, seq![v])),
    }
}

/// Folds pairs left to right into groups.
pub open spec fn grouped(ps: Seq<(Seq<u8>, Option<Seq<u8>>)>) -> Seq<
    (Seq<u8>, Seq<Option<Seq<u8>>>),
>
    decreases ps.len(),
{
    if ps.len() == 0 {
        Seq::empty()
    } else {
        group_append(grouped(ps.drop_last()), ps.last().0, ps.last().1)
    }
}

/// The whole Duplicate mode: keys decoded, every occurrence kept.
pub open spec fn duplicate_model(input: Seq<u8>) -> Option<Seq<(Seq<u8>, Seq<Option<Seq<u8>>>)>> {
    match decoded_key_pairs(raw_pairs(input)) {
        Some(dp) => Some(grouped(dp)),
        None => None,
    }
}

/// One group: a decoded key and the raw values of all its occurrences.
#[derive(Debug)]
pub struct GroupEntry {
    pub key: Vec<u8>,
    pub values: Vec<OptSlice>,
}

impl DeepView for GroupEntry {
    type V = (Seq<u8>, Seq<Option<Seq<u8>>>);

    open spec fn deep_view(&self) -> (Seq<u8>, Seq<Option<Seq<u8>>>) {
        (self.key@, self.values.deep_view())
    }
}

/// Applies one pair to the groups: append to the key's group, or open one.
#[verifier::loop_isolation(false)]
fn group_upsert(entries: &mut Vec<GroupEntry>, key: Vec<u8>, value: OptSlice)
    ensures
        final(entries).deep_view() == group_append(old(entries).deep_view(), key@, value@),
{
    let ghost orig = entries.deep_view();
    let mut i: usize = 0;
    while i < entries.len()
        invariant
            0 <= i <= entries@.len(),
            entries.deep_view() == orig,
            forall|j: int| 0 <= j < i ==> orig[j].0 != key@,
        decreases entries@.len() - i,
    {
        if bytes_eq(entries[i].key.as_slice(), key.as_slice()) {
            proof {
                lemma_find_key_exact(orig, key@, i as int);
            }
            let mut e = entries.remove(i);
            let ghost vs = e.values.deep_view();
            e.values.push(value);
            proof {
                assert(e.values.deep_view() =~= vs.push(value@));
            }
            entries.insert(i, e);
            proof {
                assert(entries.deep_view() =~= orig.update(i as int, (key@, vs.push(value@))));
                assert((key@, vs.push(value@)) == (key@, orig[i as int].1.push(value@)));
            }
            return ;
        }
        i = i + 1;
    }
    proof {
        lemma_find_key_none(orig, key@);
    }
    let mut values: Vec<OptSlice> = Vec::new();
    values.push(value);
    proof {
        assert(values.deep_view() =~= seq![value@]);
    }
    entries.push(GroupEntry { key, values });
    proof {
        assert(entries.deep_view() =~= orig.push((key@, seq![value@])));
    }
}

/// Decodes the keys and folds the raw pairs into groups.
#[verifier::loop_isolation(false)]
fn fold_grouped(rp: Vec<RawPair>) -> (r: Result<Vec<GroupEntry>, Error>)
    ensures
        match r {
            Ok(es) => match decoded_key_pairs(rp.deep_view()) {
                Some(dp) => grouped(dp) == es.deep_view(),
                None => false,
            },
            Err(e) => decoded_key_pairs(rp.deep_view()) is None && e.kind
                == ErrorKind::InvalidEncoding,
        },
{
    let ghost rps = rp.deep_view();
    let mut rp = rp;
    let mut acc: Vec<GroupEntry> = Vec::new();
    let ghost mut dp: Seq<(Seq<u8>, Option<Seq<u8>>)> = Seq::empty();
    let ghost mut j: int = 0;
    proof {
        assert(rps.skip(0) =~= rps);
    }
    while rp.len() > 0
        invariant
            0 <= j <= rps.len(),
            rp.deep_view() == rps.skip(j),
            decoded_key_pairs(rps) == match decoded_key_pairs(rps.skip(j)) {
                Some(rest) => Some(dp + rest),
                None => None::<Seq<(Seq<u8>, Option<Seq<u8>>)>>,
            },
            acc.deep_view() == grouped(dp),
        decreases rp@.len(),
    {
        let ghost t = rps.skip(j);
        let p = rp.remove(0);
        let ghost pv = p.deep_view();
        proof {
            assert(pv == t[0]);
            assert(rp.deep_view() =~= t.skip(1));
            assert(t.skip(1) =~= rps.skip(j + 1));
        }
        let RawPair { key, value } = p;
        match percent_decode(key.as_slice()) {
            Err(e) => {
                proof {
                    assert(decoded_key_pairs(t) is None);
                }
                return Err(e);
            },
            Ok(k) => {
                let ghost x = (k@, pv.1);
                proof {
                    if decoded_key_pairs(t.skip(1)) is Some {
                        let rest = decoded_key_pairs(t.skip(1)).unwrap();
                        assert(decoded_key_pairs(t) == Some(seq![x] + rest));
                        assert(dp + (seq![x] + rest) =~= dp.push(x) + rest);
                    } else {
                        assert(decoded_key_pairs(t) is None);
                    }
                }
                group_upsert(&mut acc, k, value);
                proof {
                    assert(dp.push(x).drop_last() =~= dp);
                    dp = dp.push(x);
                    j = j + 1;
                }
            },
        }
    }
    proof {
        assert(rps.skip(j) =~= Seq::<(Seq<u8>, Option<Seq<u8>>)>::empty());
        assert(decoded_key_pairs(rps.skip(j)) == Some(Seq::<(Seq<u8>, Option<Seq<u8>>)>::empty()));
        assert(dp + Seq::<(Seq<u8>, Option<Seq<u8>>)>::empty() =~= dp);
    }
    Ok(acc)
}

/// The parsed collection of the Duplicate mode: each key once, holding all
/// of its values in encounter order, keys ordered by first occurrence.
pub struct DuplicateQS {
    entries: Vec<GroupEntry>,
}

impl View for DuplicateQS {
    type V = Seq<(Seq<u8>, Seq<Option<Seq<u8>>>)>;

    closed spec fn view(&self) -> Seq<(Seq<u8>, Seq<Option<Seq<u8>>>)> {
        self.entries.deep_view()
    }
}

impl DuplicateQS {
    /// Parses the input under the Duplicate grammar. Fails with
    /// `InvalidEncoding` exactly when some key holds a malformed escape.
    pub fn parse(input: &[u8]) -> (r: Result<DuplicateQS, Error>)
        ensures
            match r {
                Ok(qs) => duplicate_model(input@) == Some(qs@),
                Err(e) => duplicate_model(input@) is None && e.kind == ErrorKind::InvalidEncoding,
            },
    {
        let rp = parse_raw_pairs(input);
        match fold_grouped(rp) {
            Ok(entries) => Ok(DuplicateQS { entries }),
            Err(e) => Err(e),
        }
    }

    /// Hands the groups to the collection's one consumer.
    pub fn into_entries(self) -> (r: Vec<GroupEntry>)
        ensures
            r.deep_view() == self@,
    {
        self.entries
    }
}

} // verus!

//! The plain `key=value` mode: one value per key, the last occurrence wins,
//! and a key keeps the position of its first occurrence. Keys are compared
//! after percent-decoding, so different encodings of one key are one key.

use vstd::prelude::*;

use crate::entries::{decoded_key_pairs, flat_upsert, upsert, FlatEntry};
use crate::error::{Error, ErrorKind};
use crate::slices::percent_decode;
use crate::split::{parse_raw_pairs, raw_pairs, RawPair};

verus! {

/// Folds pairs left to right: a later value overwrites an earlier one under
/// the same key, without moving the key.
pub open spec fn last_wins(ps: Seq<(Seq<u8>, Option<Seq<u8>>)>) -> Seq<(Seq<u8>, Option<Seq<u8>>)>
    decreases ps.len(),
{
    if ps.len() == 0 {
        Seq::empty()
    } else {
        upsert(last_wins(ps.drop_last()), ps.last().0, ps.last().1)
    }
}

/// Key decoding, then the overwriting fold; `None` on a malformed key.
pub open spec fn flat_model(ps: Seq<(Seq<u8>, Option<Seq<u8>>)>) -> Option<
    Seq<(Seq<u8>, Option<Seq<u8>>)>,
> {
    match decoded_key_pairs(ps) {
        Some(dp) => Some(last_wins(dp)),
        None => None,
    }
}

/// The whole UrlEncoded mode as a function of the input bytes.
pub open spec fn urlencoded_model(input: Seq<u8>) -> Option<Seq<(Seq<u8>, Option<Seq<u8>>)>> {
    flat_model(raw_pairs(input))
}

/// Decodes the keys and folds the raw pairs, last value winning.
#[verifier::loop_isolation(false)]
pub(crate) fn fold_flat(rp: Vec<RawPair>) -> (r: Result<Vec<FlatEntry>, Error>)
    ensures
        match r {
            Ok(es) => flat_model(rp.deep_view()) == Some(es.deep_view()),
            Err(e) => flat_model(rp.deep_view()) is None && e.kind == ErrorKind::InvalidEncoding,
        },
{
    let ghost rps = rp.deep_view();
    let mut rp = rp;
    let mut acc: Vec<FlatEntry> = Vec::new();
    let ghost mut dp: Seq<(Seq<u8>, Option<Seq<u8>>)> = Seq::empty();
    let ghost mut j: int = 0;
    proof {
        assert(rps.skip(0) =~= rps);
    }
    while rp.len() > 0
        invariant
            0 <= j <= rps.len(),
            rp.deep_view() == rps.skip(j),
            decoded_key_pairs(rps) == match decoded_key_pairs(rps.skip(j)) {
                Some(rest) => Some(dp + rest),
                None => None::<Seq<(Seq<u8>, Option<Seq<u8>>)>>,
            },
            acc.deep_view() == last_wins(dp),
        decreases rp@.len(),
    {
        let ghost t = rps.skip(j);
        let p = rp.remove(0);
        let ghost pv = p.deep_view();
        proof {
            assert(pv == t[0]);
            assert(rp.deep_view() =~= t.skip(1));
            assert(t.skip(1) =~= rps.skip(j + 1));
        }
        let RawPair { key, value } = p;
        match percent_decode(key.as_slice()) {
            Err(e) => {
                proof {
                    assert(decoded_key_pairs(t) is None);
                }
                return Err(e);
            },
            Ok(k) => {
                let ghost x = (k@, pv.1);
                proof {
                    if decoded_key_pairs(t.skip(1)) is Some {
                        let rest = decoded_key_pairs(t.skip(1)).unwrap();
                        assert(decoded_key_pairs(t) == Some(seq![x] + rest));
                        assert(dp + (seq![x] + rest) =~= dp.push(x) + rest);
                    } else {
                        assert(decoded_key_pairs(t) is None);
                    }
                }
                flat_upsert(&mut acc, k, value);
                proof {
                    assert(dp.push(x).drop_last() =~= dp);
                    dp = dp.push(x);
                    j = j + 1;
                }
            },
        }
    }
    proof {
        assert(rps.skip(j) =~= Seq::<(Seq<u8>, Option<Seq<u8>>)>::empty());
        assert(decoded_key_pairs(rps.skip(j)) == Some(Seq::<(Seq<u8>, Option<Seq<u8>>)>::empty()));
        assert(dp + Seq::<(Seq<u8>, Option<Seq<u8>>)>::empty() =~= dp);
    }
    Ok(acc)
}

/// The parsed collection of the UrlEncoded mode: each key once, holding the
/// value of its last occurrence, ordered by first occurrence.
pub struct UrlEncodedQS {
    entries: Vec<FlatEntry>,
}

impl View for UrlEncodedQS {
    type V = Seq<(Seq<u8>, Option<Seq<u8>>)>;

    closed spec fn view(&self) -> Seq<(Seq<u8>, Option<Seq<u8>>)> {
        self.entries.deep_view()
    }
}

impl UrlEncodedQS {
    /// Parses the input under the UrlEncoded grammar. Fails with
    /// `InvalidEncoding` exactly when some key holds a malformed escape.
    pub fn parse(input: &[u8]) -> (r: Result<UrlEncodedQS, Error>)
        ensures
            match r {
                Ok(qs) => urlencoded_model(input@) == Some(qs@),
                Err(e) => urlencoded_model(input@) is None && e.kind == ErrorKind::InvalidEncoding,
            },
    {
        let rp = parse_raw_pairs(input);
        match fold_flat(rp) {
            Ok(entries) => Ok(UrlEncodedQS { entries }),
            Err(e) => Err(e),
        }
    }

    /// Hands the entries to the collection's one consumer.
    pub fn into_entries(self) -> (r: Vec<FlatEntry>)
        ensures
            r.deep_view() == self@,
    {
        self.entries
    }
}

} // verus!

//! The Brackets mode: a raw key `root[segment]` files its value under the
//! decoded root. Segments that are absent or empty (`n`, `n[]`) append to
//! the root's positional values; non-empty segments name slots of a map
//! ordered by first occurrence, where a later value overwrites an earlier
//! one. Only one bracket level is recognized: a second `[` stays literal
//! text inside the segment. A consumer that reads a mixed group as a
//! sequence gets the positional values first, then the named ones.

use vstd::prelude::*;

use crate::entries::{
    bytes_eq, find_key, flat_upsert, lemma_find_key_exact, lemma_find_key_none, upsert, FlatEntry,
};
use crate::error::{Error, ErrorKind};
use crate::slices::{pct_decode, percent_decode, OptSlice};
use crate::split::{
    find_byte, find_byte_at, lemma_bytes_deep_view, lemma_find_byte, parse_raw_pairs, raw_pairs,
    sub_vec, RawPair,
};

verus! {

/// The byte `[`.
pub const LBRACKET: u8 = 91;

/// The byte `]`.
pub const RBRACKET: u8 = 93;

/// A bracket group: the values filed positionally, and the named slots in
/// first-occurrence order.
pub type BracketGroupModel = (Seq<Option<Seq<u8>>>, Seq<(Seq<u8>, Option<Seq<u8>>)>);

/// Does the raw key decompose into `root[segment]`? It must hold a `[` and
/// end with `]` strictly after it.
pub open spec fn has_bracket(k: Seq<u8>) -> bool {
    match find_byte(k, LBRACKET) {
        None => false,
        Some(i) => k.len() >= i + 2 && k[k.len() - 1] == RBRACKET,
    }
}

/// The root of a raw key: what stands before the first `[` when the key
/// decomposes, the whole key otherwise.
pub open spec fn bracket_root(k: Seq<u8>) -> Seq<u8> {
    if has_bracket(k) {
        k.take(find_byte(k, LBRACKET).unwrap())
    } else {
        k
    }
}

/// The raw segment between the first `[` and the final `]`, if the key
/// decomposes; inner brackets stay literal.
pub open spec fn bracket_segment(k: Seq<u8>) -> Option<Seq<u8>> {
    if has_bracket(k) {
        Some(k.subrange(find_byte(k, LBRACKET).unwrap() + 1, k.len() - 1))
    } else {
        None
    }
}

/// Files one value in a group: positionally for an absent or empty segment,
/// else under the named slot (overwriting, position kept).
pub open spec fn bgroup_add(
    g: BracketGroupModel,
    seg: Option<Seq<u8>>,
    v: Option<Seq<u8>>,
) -> BracketGroupModel {
    match seg {
        None => (g.0.push(v), g.1),
        Some(s) => if s.len() == 0 {
            (g.0.push(v), g.1)
        } else {
            (g.0, upsert(g.1, s, v))
        },
    }
}

/// Files one value under its root, opening a fresh group for a new root.
pub open spec fn brackets_put(
    entries: Seq<(Seq<u8>, BracketGroupModel)>,
    root: Seq<u8>,
    seg: Option<Seq<u8>>,
    v: Option<Seq<u8>>,
) -> Seq<(Seq<u8>, BracketGroupModel)> {
    match find_key(entries, root) {
        Some(i) => entries.update(i, (root, bgroup_add(entries[i].1, seg, v))),
        None => entries.push((root, bgroup_add((Seq::empty(), Seq::empty()), seg, v))),
    }
}

/// Decomposes every raw pair into (decoded root, decoded segment, raw
/// value); `None` when a root or segment holds a malformed escape.
pub open spec fn decomposed_pairs(ps: Seq<(Seq<u8>, Option<Seq<u8>>)>) -> Option<
    Seq<(Seq<u8>, Option<Seq<u8>>, Option<Seq<u8>>)>,
>
    decreases ps.len(),
{
    if ps.len() == 0 {
        Some(Seq::empty())
    } else {
        match (pct_decode(bracket_root(ps[0].0)), decomposed_pairs(ps.skip(1))) {
            (Some(root), Some(rest)) => match bracket_segment(ps[0].0) {
                None => Some(seq![(root, None::<Seq<u8>>, ps[0].1)] + rest),
                Some(sraw) => match pct_decode(sraw) {
                    Some(s) => Some(seq![(root, Some(s), ps[0].1)] + rest),
                    None => None,
                },
            },
            _ => None,
        }
    }
}

/// Folds decomposed pairs left to right into root groups.
pub open spec fn bracket_entries(ds: Seq<(Seq<u8>, Option<Seq<u8>>, Option<Seq<u8>>)>) -> Seq<
    (Seq<u8>, BracketGroupModel),
>
    decreases ds.len(),
{
    if ds.len() == 0 {
        Seq::empty()
    } else {
        brackets_put(bracket_entries(ds.drop_last()), ds.last().0, ds.last().1, ds.last().2)
    }
}

/// The whole Brackets mode as a function of the input bytes.
pub open spec fn brackets_model(input: Seq<u8>) -> Option<Seq<(Seq<u8>, BracketGroupModel)>> {
    match decomposed_pairs(raw_pairs(input)) {
        Some(ds) => Some(bracket_entries(ds)),
        None => None,
    }
}

/// Cuts a raw key into its root and its raw segment, if it has one.
fn split_bracket_key(k: Vec<u8>) -> (r: (Vec<u8>, Option<Vec<u8>>))
    ensures
        r.0@ == bracket_root(k@),
        match r.1 {
            Some(s) => bracket_segment(k@) == Some(s@),
            None => bracket_segment(k@) is None,
        },
{
    match find_byte_at(k.as_slice(), LBRACKET) {
        None => (k, None),
        Some(i) => {
            let n = k.len();
            proof {
                lemma_find_byte(k@, LBRACKET);
            }
            if n - i >= 2 && k[n - 1] == RBRACKET {
                let root = sub_vec(k.as_slice(), 0, i);
                let seg = sub_vec(k.as_slice(), i + 1, n - 1);
                proof {
                    assert(k@.take(i as int) =~= k@.subrange(0, i as int));
                }
                (root, Some(seg))
            } else {
                (k, None)
            }
        },
    }
}

/// One root group of the Brackets collection.
#[derive(Debug)]
pub struct BracketGroup {
    pub positional: Vec<OptSlice>,
    pub named: Vec<FlatEntry>,
}

impl DeepView for BracketGroup {
    type V = BracketGroupModel;

    open spec fn deep_view(&self) -> BracketGroupModel {
        (self.positional.deep_view(), self.named.deep_view())
    }
}

impl BracketGroup {
    /// An empty group, before its first value arrives.
    fn empty() -> (r: BracketGroup)
        ensures
            r.deep_view() == (Seq::<Option<Seq<u8>>>::empty(), Seq::<
                (Seq<u8>, Option<Seq<u8>>),
            >::empty()),
    {
        let r = BracketGroup { positional: Vec::new(), named: Vec::new() };
        proof {
            assert(r.positional.deep_view() =~= Seq::<Option<Seq<u8>>>::empty());
            assert(r.named.deep_view() =~= Seq::<(Seq<u8>, Option<Seq<u8>>)>::empty());
        }
        r
    }

    /// Files one value in this group.
    fn add(&mut self, seg: Option<Vec<u8>>, v: OptSlice)
        ensures
            final(self).deep_view() == bgroup_add(old(self).deep_view(), seg.deep_view(), v@),
    {
        let ghost orig = self.deep_view();
        match seg {
            None => {
                let ghost pos = self.positional.deep_view();
                self.positional.push(v);
                proof {
                    assert(self.positional.deep_view() =~= pos.push(v@));
                }
            },
            Some(s) => {
                proof {
                    lemma_bytes_deep_view(s);
                }
                if s.len() == 0 {
                    let ghost pos = self.positional.deep_view();
                    self.positional.push(v);
                    proof {
                        assert(self.positional.deep_view() =~= pos.push(v@));
                    }
                } else {
                    flat_upsert(&mut self.named, s, v);
                }
            },
        }
    }
}

/// One entry of the Brackets collection: a decoded root and its group.
#[derive(Debug)]
pub struct BracketEntry {
    pub root: Vec<u8>,
    pub group: BracketGroup,
}

impl DeepView for BracketEntry {
    type V = (Seq<u8>, BracketGroupModel);

    open spec fn deep_view(&self) -> (Seq<u8>, BracketGroupModel) {
        (self.root@, self.group.deep_view())
    }
}

/// Files one decomposed pair under its root group.
#[verifier::loop_isolation(false)]
fn brackets_upsert(entries: &mut Vec<BracketEntry>, root: Vec<u8>, seg: Option<Vec<u8>>, v: OptSlice)
    ensures
        final(entries).deep_view() == brackets_put(
            old(entries).deep_view(),
            root@,
            seg.deep_view(),
            v@,
        ),
{
    let ghost orig = entries.deep_view();
    let mut i: usize = 0;
    while i < entries.len()
        invariant
            0 <= i <= entries@.len(),
            entries.deep_view() == orig,
            forall|j: int| 0 <= j < i ==> orig[j].0 != root@,
        decreases entries@.len() - i,
    {
        if bytes_eq(entries[i].root.as_slice(), root.as_slice()) {
            proof {
                lemma_find_key_exact(orig, root@, i as int);
            }
            let mut e = entries.remove(i);
            e.group.add(seg, v);
            entries.insert(i, e);
            proof {
                assert(entries.deep_view() =~= orig.update(
                    i as int,
                    (root@, bgroup_add(orig[i as int].1, seg.deep_view(), v@)),
                ));
            }
            return ;
        }
        i = i + 1;
    }
    proof {
        lemma_find_key_none(orig, root@);
    }
    let mut group = BracketGroup::empty();
    group.add(seg, v);
    entries.push(BracketEntry { root, group });
    proof {
        assert(entries.deep_view() =~= orig.push(
            (root@, bgroup_add((Seq::empty(), Seq::empty()), seg.deep_view(), v@)),
        ));
    }
}

/// Decomposes, decodes and folds the raw pairs into root groups.
#[verifier::loop_isolation(false)]
fn fold_brackets(rp: Vec<RawPair>) -> (r: Result<Vec<BracketEntry>, Error>)
    ensures
        match r {
            Ok(es) => match decomposed_pairs(rp.deep_view()) {
                Some(ds) => bracket_entries(ds) == es.deep_view(),
                None => false,
            },
            Err(e) => decomposed_pairs(rp.deep_view()) is None && e.kind
                == ErrorKind::InvalidEncoding,
        },
{
    let ghost rps = rp.deep_view();
    let mut rp = rp;
    let mut acc: Vec<BracketEntry> = Vec::new();
    let ghost mut ds: Seq<(Seq<u8>, Option<Seq<u8>>, Option<Seq<u8>>)> = Seq::empty();
    let ghost mut j: int = 0;
    proof {
        assert(rps.skip(0) =~= rps);
    }
    while rp.len() > 0
        invariant
            0 <= j <= rps.len(),
            rp.deep_view() == rps.skip(j),
            decomposed_pairs(rps) == match decomposed_pairs(rps.skip(j)) {
                Some(rest) => Some(ds + rest),
                None => None::<Seq<(Seq<u8>, Option<Seq<u8>>, Option<Seq<u8>>)>>,
            },
            acc.deep_view() == bracket_entries(ds),
        decreases rp@.len(),
    {
        let ghost t = rps.skip(j);
        let p = rp.remove(0);
        let ghost pv = p.deep_view();
        proof {
            assert(pv == t[0]);
            assert(rp.deep_view() =~= t.skip(1));
            assert(t.skip(1) =~= rps.skip(j + 1));
        }
        let RawPair { key, value } = p;
        let (root_raw, seg_raw) = split_bracket_key(key);
        match percent_decode(root_raw.as_slice()) {
            Err(_) => {
                proof {
                    assert(decomposed_pairs(t) is None);
                }
                return Err(Error::new(ErrorKind::InvalidEncoding, root_raw));
            },
            Ok(root) => {
                match seg_raw {
                    None => {
                        let ghost x = (root@, None::<Seq<u8>>, pv.1);
                        proof {
                            if decomposed_pairs(t.skip(1)) is Some {
                                let rest = decomposed_pairs(t.skip(1)).unwrap();
                                assert(decomposed_pairs(t) == Some(seq![x] + rest));
                                assert(ds + (seq![x] + rest) =~= ds.push(x) + rest);
                            } else {
                                assert(decomposed_pairs(t) is None);
                            }
                        }
                        brackets_upsert(&mut acc, root, None, value);
                        proof {
                            assert(ds.push(x).drop_last() =~= ds);
                            ds = ds.push(x);
                            j = j + 1;
                        }
                    },
                    Some(sr) => {
                        match percent_decode(sr.as_slice()) {
                            Err(e) => {
                                proof {
                                    assert(decomposed_pairs(t) is None);
                                }
                                return Err(e);
                            },
                            Ok(s) => {
                                let ghost x = (root@, Some(s@), pv.1);
                                proof {
                                    lemma_bytes_deep_view(s);
                                    if decomposed_pairs(t.skip(1)) is Some {
                                        let rest = decomposed_pairs(t.skip(1)).unwrap();
                                        assert(decomposed_pairs(t) == Some(seq![x] + rest));
                                        assert(ds + (seq![x] + rest) =~= ds.push(x) + rest);
                                    } else {
                                        assert(decomposed_pairs(t) is None);
                                    }
                                }
                                brackets_upsert(&mut acc, root, Some(s), value);
                                proof {
                                    assert(ds.push(x).drop_last() =~= ds);
                                    ds = ds.push(x);
                                    j = j + 1;
                                }
                            },
                        }
                    },
                }
            },
        }
    }
    proof {
        assert(rps.skip(j) =~= Seq::<(Seq<u8>, Option<Seq<u8>>)>::empty());
        assert(decomposed_pairs(rps.skip(j)) == Some(Seq::<
            (Seq<u8>, Option<Seq<u8>>, Option<Seq<u8>>),
        >::empty()));
        assert(ds + Seq::<(Seq<u8>, Option<Seq<u8>>, Option<Seq<u8>>)>::empty() =~= ds);
    }
    Ok(acc)
}

/// The parsed collection of the Brackets mode: each decoded root once, in
/// first-occurrence order, holding its group.
pub struct BracketsQS {
    entries: Vec<BracketEntry>,
}

impl View for BracketsQS {
    type V = Seq<(Seq<u8>, BracketGroupModel)>;

    closed spec fn view(&self) -> Seq<(Seq<u8>, BracketGroupModel)> {
        self.entries.deep_view()
    }
}

impl BracketsQS {
    /// Parses the input under the Brackets grammar. Fails with
    /// `InvalidEncoding` exactly when some root or segment holds a malformed
    /// escape.
    pub fn parse(input: &[u8]) -> (r: Result<BracketsQS, Error>)
        ensures
            match r {
                Ok(qs) => brackets_model(input@) == Some(qs@),
                Err(e) => brackets_model(input@) is None && e.kind == ErrorKind::InvalidEncoding,
            },
    {
        let rp = parse_raw_pairs(input);
        match fold_brackets(rp) {
            Ok(entries) => Ok(BracketsQS { entries }),
            Err(e) => Err(e),
        }
    }

    /// Hands the groups to the collection's one consumer.
    pub fn into_entries(self) -> (r: Vec<BracketEntry>)
        ensures
            r.deep_view() == self@,
    {
        self.entries
    }
}

} // verus!

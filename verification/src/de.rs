//! The decode bridge: one entry point parses the input under a mode, and
//! the resulting deserializer yields each decoded key and its value group
//! once, in order, for a consumer that pulls them.

use vstd::prelude::*;
use vstd::pervasive::unreached;

use crate::brackets::{brackets_model, BracketGroupModel, BracketsQS};
use crate::delimiter::{delimiter_model, DelimiterQS};
use crate::duplicate::{duplicate_model, DuplicateQS, GroupEntry};
use crate::entries::FlatEntry;
use crate::error::{Error, ErrorKind};
use crate::group::{Group, GroupModel};
use crate::urlencoded::{urlencoded_model, UrlEncodedQS};

verus! {

/// Which grammar reads the input; `Delimiter` carries the separator byte.
#[derive(Clone, Copy)]
pub enum Config {
    UrlEncoded,
    Duplicate,
    Delimiter(u8),
    Brackets,
}

/// One entry the bridge yields: a decoded key and its value group.
#[derive(Debug)]
pub struct Pair {
    pub key: Vec<u8>,
    pub value: Group,
}

impl DeepView for Pair {
    type V = (Seq<u8>, GroupModel);

    open spec fn deep_view(&self) -> (Seq<u8>, GroupModel) {
        (self.key@, self.value.deep_view())
    }
}

/// What decoding an input under a mode yields: the bridge's entries, each
/// key once, in first-occurrence order; `None` exactly on a malformed
/// escape in a key (or bracket segment).
pub open spec fn query_model(input: Seq<u8>, config: Config) -> Option<
    Seq<(Seq<u8>, GroupModel)>,
> {
    match config {
        Config::UrlEncoded => match urlencoded_model(input) {
            Some(es) => Some(
                es.map_values(
                    |e: (Seq<u8>, Option<Seq<u8>>)| (e.0, GroupModel::Single(e.1)),
                ),
            ),
            None => None,
        },
        Config::Duplicate => match duplicate_model(input) {
            Some(es) => Some(
                es.map_values(
                    |e: (Seq<u8>, Seq<Option<Seq<u8>>>)| (e.0, GroupModel::Multi(e.1)),
                ),
            ),
            None => None,
        },
        Config::Delimiter(sep) => match delimiter_model(input) {
            Some(es) => Some(
                es.map_values(
                    |e: (Seq<u8>, Option<Seq<u8>>)| (e.0, GroupModel::Delimited(e.1, sep)),
                ),
            ),
            None => None,
        },
        Config::Brackets => match brackets_model(input) {
            Some(es) => Some(
                es.map_values(
                    |e: (Seq<u8>, BracketGroupModel)| (e.0, GroupModel::Bracketed(e.1)),
                ),
            ),
            None => None,
        },
    }
}

/// The bridge over a parsed collection: a single pass, one key and then its
/// value group at a time.
#[derive(Debug)]
pub struct QSDeserializer {
    entries: Vec<Pair>,
    pending: Option<Group>,
}

impl View for QSDeserializer {
    type V = (Seq<(Seq<u8>, GroupModel)>, Option<GroupModel>);

    closed spec fn view(&self) -> (Seq<(Seq<u8>, GroupModel)>, Option<GroupModel>) {
        (
            self.entries.deep_view(),
            match self.pending {
                Some(g) => Some(g.deep_view()),
                None => None,
            },
        )
    }
}

impl QSDeserializer {
    /// Wraps the entries for consumption; nothing is pending yet.
    pub fn new(entries: Vec<Pair>) -> (r: QSDeserializer)
        ensures
            r@.0 == entries.deep_view(),
            r@.1 is None,
    {
        QSDeserializer { entries, pending: None }
    }

    /// Yields the next key and makes its group pending, or `None` at the
    /// end. A group left pending is dropped: the protocol reads the value
    /// right after its key or not at all.
    pub fn next_key(&mut self) -> (r: Option<Vec<u8>>)
        ensures
            match r {
                Some(k) => old(self)@.0.len() > 0 && k@ == old(self)@.0[0].0 && final(self)@.0
                    == old(self)@.0.skip(1) && final(self)@.1 == Some(old(self)@.0[0].1),
                None => old(self)@.0.len() == 0 && final(self)@ == old(self)@,
            },
    {
        if self.entries.len() > 0 {
            let ghost es = self.entries.deep_view();
            let e = self.entries.remove(0);
            proof {
                assert(e.deep_view() == es[0]);
                assert(self.entries.deep_view() =~= es.skip(1));
            }
            self.pending = Some(e.value);
            Some(e.key)
        } else {
            None
        }
    }

    /// Yields the group of the key `next_key` just returned. The protocol
    /// owes one call of this per yielded key, and before the next key: a
    /// group must be pending.
    pub fn next_value(&mut self) -> (r: Group)
        requires
            old(self)@.1 is Some,
        ensures
            Some(r.deep_view()) == old(self)@.1,
            final(self)@.0 == old(self)@.0,
            final(self)@.1 is None,
    {
        let g = self.pending.take();
        match g {
            Some(v) => v,
            None => unreached(),
        }
    }
}

/// Decodes a whole query string under the chosen mode: the single entry
/// point of the pipeline. Fails with `InvalidEncoding` exactly when a key
/// (or bracket segment) holds a malformed escape; values are decoded when
/// they are read from the returned bridge.
#[verifier::loop_isolation(false)]
pub fn from_bytes(input: &[u8], config: Config) -> (r: Result<QSDeserializer, Error>)
    ensures
        match r {
            Ok(d) => query_model(input@, config) == Some(d@.0) && d@.1 is None,
            Err(e) => query_model(input@, config) is None && e.kind == ErrorKind::InvalidEncoding,
        },
{
    match config {
        Config::UrlEncoded => {
            match UrlEncodedQS::parse(input) {
                Err(e) => Err(e),
                Ok(qs) => {
                    let ghost full = qs@;
                    let ghost target = query_model(input@, config).unwrap();
                    let mut es = qs.into_entries();
                    let mut out: Vec<Pair> = Vec::new();
                    let ghost mut i: int = 0;
                    proof {
                        assert(es.deep_view() =~= full.skip(0));
                        assert(out.deep_view() =~= target.take(0));
                    }
                    while es.len() > 0
                        invariant
                            0 <= i <= full.len(),
                            es.deep_view() == full.skip(i),
                            out.deep_view() == target.take(i),
                        decreases es@.len(),
                    {
                        let ghost t = full.skip(i);
                        let e = es.remove(0);
                        proof {
                            assert(e.deep_view() == t[0]);
                            assert(t[0] == full[i]);
                            assert(es.deep_view() =~= t.skip(1));
                            assert(t.skip(1) =~= full.skip(i + 1));
                            assert(target[i] == (full[i].0, GroupModel::Single(full[i].1)));
                        }
                        let FlatEntry { key, value } = e;
                        out.push(Pair { key, value: Group::Single(value) });
                        proof {
                            assert(out.deep_view() =~= target.take(i + 1));
                            i = i + 1;
                        }
                    }
                    proof {
                        assert(target.take(target.len() as int) =~= target);
                    }
                    Ok(QSDeserializer::new(out))
                },
            }
        },
        Config::Duplicate => {
            match DuplicateQS::parse(input) {
                Err(e) => Err(e),
                Ok(qs) => {
                    let ghost full = qs@;
                    let ghost target = query_model(input@, config).unwrap();
                    let mut es = qs.into_entries();
                    let mut out: Vec<Pair> = Vec::new();
                    let ghost mut i: int = 0;
                    proof {
                        assert(es.deep_view() =~= full.skip(0));
                        assert(out.deep_view() =~= target.take(0));
                    }
                    while es.len() > 0
                        invariant
                            0 <= i <= full.len(),
                            es.deep_view() == full.skip(i),
                            out.deep_view() == target.take(i),
                        decreases es@.len(),
                    {
                        let ghost t = full.skip(i);
                        let e = es.remove(0);
                        proof {
                            assert(e.deep_view() == t[0]);
                            assert(t[0] == full[i]);
                            assert(es.deep_view() =~= t.skip(1));
                            assert(t.skip(1) =~= full.skip(i + 1));
                            assert(target[i] == (full[i].0, GroupModel::Multi(full[i].1)));
                        }
                        let GroupEntry { key, values } = e;
                        out.push(Pair { key, value: Group::Multi(values) });
                        proof {
                            assert(out.deep_view() =~= target.take(i + 1));
                            i = i + 1;
                        }
                    }
                    proof {
                        assert(target.take(target.len() as int) =~= target);
                    }
                    Ok(QSDeserializer::new(out))
                },
            }
        },
        Config::Delimiter(sep) => {
            match DelimiterQS::parse(input, sep) {
                Err(e) => Err(e),
                Ok(qs) => {
                    let ghost full = qs@.0;
                    let ghost target = query_model(input@, config).unwrap();
                    let pair = qs.into_entries();
                    let mut es = pair.0;
                    let separator = pair.1;
                    let mut out: Vec<Pair> = Vec::new();
                    let ghost mut i: int = 0;
                    proof {
                        assert(es.deep_view() =~= full.skip(0));
                        assert(out.deep_view() =~= target.take(0));
                    }
                    while es.len() > 0
                        invariant
                            0 <= i <= full.len(),
                            es.deep_view() == full.skip(i),
                            out.deep_view() == target.take(i),
                        decreases es@.len(),
                    {
                        let ghost t = full.skip(i);
                        let e = es.remove(0);
                        proof {
                            assert(e.deep_view() == t[0]);
                            assert(t[0] == full[i]);
                            assert(es.deep_view() =~= t.skip(1));
                            assert(t.skip(1) =~= full.skip(i + 1));
                            assert(target[i] == (full[i].0, GroupModel::Delimited(full[i].1, sep)));
                        }
                        let FlatEntry { key, value } = e;
                        out.push(Pair { key, value: Group::Delimited(value, separator) });
                        proof {
                            assert(out.deep_view() =~= target.take(i + 1));
                            i = i + 1;
                        }
                    }
                    proof {
                        assert(target.take(target.len() as int) =~= target);
                    }
                    Ok(QSDeserializer::new(out))
                },
            }
        },
        Config::Brackets => {
            match BracketsQS::parse(input) {
                Err(e) => Err(e),
                Ok(qs) => {
                    let ghost full = qs@;
                    let ghost target = query_model(input@, config).unwrap();
                    let mut es = qs.into_entries();
                    let mut out: Vec<Pair> = Vec::new();
                    let ghost mut i: int = 0;
                    proof {
                        assert(es.deep_view() =~= full.skip(0));
                        assert(out.deep_view() =~= target.take(0));
                    }
                    while es.len() > 0
                        invariant
                            0 <= i <= full.len(),
                            es.deep_view() == full.skip(i),
                            out.deep_view() == target.take(i),
                        decreases es@.len(),
                    {
                        let ghost t = full.skip(i);
                        let e = es.remove(0);
                        proof {
                            assert(e.deep_view() == t[0]);
                            assert(t[0] == full[i]);
                            assert(es.deep_view() =~= t.skip(1));
                            assert(t.skip(1) =~= full.skip(i + 1));
                            assert(target[i] == (full[i].0, GroupModel::Bracketed(full[i].1)));
                        }
                        out.push(Pair { key: e.root, value: Group::Bracketed(e.group) });
                        proof {
                            assert(out.deep_view() =~= target.take(i + 1));
                            i = i + 1;
                        }
                    }
                    proof {
                        assert(target.take(target.len() as int) =~= target);
                    }
                    Ok(QSDeserializer::new(out))
                },
            }
        },
    }
}

} // verus!

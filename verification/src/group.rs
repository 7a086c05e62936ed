//! A key's value group, as the bridge hands it out, and the two shape
//! readings a consumer can ask of it: one scalar, or a sequence. Which
//! reading is right is the consumer's call — the data alone cannot decide
//! it — so a group supports both and fails the reading its mode forbids.

use vstd::prelude::*;
use vstd::pervasive::unreached;

use crate::brackets::{BracketGroup, BracketGroupModel};
use crate::error::{Error, ErrorKind};
use crate::slices::{OptSlice, RawSlice};
use crate::slices::copy_bytes;
use crate::split::{lemma_bytes_deep_view, split_bytes, split_seq};

verus! {

/// A value group under one key, shaped by the mode that parsed it.
#[derive(Debug)]
pub enum Group {
    /// Plain mode: the one surviving value.
    Single(OptSlice),
    /// Duplicate mode: every occurrence, in encounter order.
    Multi(Vec<OptSlice>),
    /// Delimiter mode: the one surviving value, and the byte to split it at
    /// when a sequence is asked for.
    Delimited(OptSlice, u8),
    /// Brackets mode: positional values and named slots.
    Bracketed(BracketGroup),
}

/// The mathematical shape of a group.
pub ghost enum GroupModel {
    Single(Option<Seq<u8>>),
    Multi(Seq<Option<Seq<u8>>>),
    Delimited(Option<Seq<u8>>, u8),
    Bracketed(BracketGroupModel),
}

impl DeepView for Group {
    type V = GroupModel;

    open spec fn deep_view(&self) -> GroupModel {
        match self {
            Group::Single(v) => GroupModel::Single(v@),
            Group::Multi(vs) => GroupModel::Multi(vs.deep_view()),
            Group::Delimited(v, sep) => GroupModel::Delimited(v@, *sep),
            Group::Bracketed(bg) => GroupModel::Bracketed(bg.deep_view()),
        }
    }
}

/// What a bracket group yields when read as a sequence: the positional
/// values first, then the named slots' values in first-occurrence order.
pub open spec fn bracket_values(g: BracketGroupModel) -> Seq<Option<Seq<u8>>> {
    g.0 + g.1.map_values(|e: (Seq<u8>, Option<Seq<u8>>)| e.1)
}

/// The pieces of one raw value split at the separator, each present.
pub open spec fn split_values(b: Seq<u8>, sep: u8) -> Seq<Option<Seq<u8>>> {
    split_seq(b, sep).map_values(|p: Seq<u8>| Some(p))
}

/// The sequence reading of a group; `None` where the mode has no sequences
/// (the plain mode holds single values only).
pub open spec fn sequence_model(g: GroupModel) -> Option<Seq<Option<Seq<u8>>>> {
    match g {
        GroupModel::Single(_) => None,
        GroupModel::Multi(vs) => Some(vs),
        GroupModel::Delimited(v, sep) => Some(
            match v {
                None => seq![None::<Seq<u8>>],
                Some(b) => split_values(b, sep),
            },
        ),
        GroupModel::Bracketed(bg) => Some(bracket_values(bg)),
    }
}

/// The scalar reading: the single value where the mode holds one, else the
/// last value of the group; `None` only for an empty group.
pub open spec fn scalar_model(g: GroupModel) -> Option<Option<Seq<u8>>> {
    match g {
        GroupModel::Single(v) => Some(v),
        GroupModel::Delimited(v, _) => Some(v),
        GroupModel::Multi(vs) => if vs.len() > 0 {
            Some(vs.last())
        } else {
            None
        },
        GroupModel::Bracketed(bg) => if bracket_values(bg).len() > 0 {
            Some(bracket_values(bg).last())
        } else {
            None
        },
    }
}

impl Group {
    /// Reads the group as one scalar; `InvalidType` when the group is empty.
    #[verifier::loop_isolation(false)]
    pub fn scalar(self) -> (r: Result<OptSlice, Error>)
        ensures
            match r {
                Ok(v) => scalar_model(self.deep_view()) == Some(v@),
                Err(e) => scalar_model(self.deep_view()) is None && e.kind
                    == ErrorKind::InvalidType,
            },
    {
        match self {
            Group::Single(v) => Ok(v),
            Group::Delimited(v, _) => Ok(v),
            Group::Multi(mut vs) => {
                match vs.pop() {
                    Some(v) => Ok(v),
                    None => Err(Error::new(ErrorKind::InvalidType, Vec::new())),
                }
            },
            Group::Bracketed(bg) => {
                let BracketGroup { mut positional, mut named } = bg;
                let ghost g = (positional.deep_view(), named.deep_view());
                if named.len() > 0 {
                    let e = named.pop();
                    match e {
                        Some(entry) => {
                            proof {
                                let n = bracket_values(g).len();
                                assert(bracket_values(g)[n - 1] == g.1[g.1.len() - 1].1);
                            }
                            Ok(entry.value)
                        },
                        None => unreached(),
                    }
                } else {
                    proof {
                        assert(bracket_values(g) =~= g.0);
                    }
                    match positional.pop() {
                        Some(v) => Ok(v),
                        None => Err(Error::new(ErrorKind::InvalidType, Vec::new())),
                    }
                }
            },
        }
    }

    /// Reads the group as a sequence, by the parsing mode's rule: all
    /// occurrences (Duplicate), the value split at the separator
    /// (Delimiter), positional then named values (Brackets). The plain mode
    /// holds no sequences: `InvalidType`.
    #[verifier::loop_isolation(false)]
    pub fn sequence(self) -> (r: Result<Vec<OptSlice>, Error>)
        ensures
            match r {
                Ok(vs) => sequence_model(self.deep_view()) == Some(vs.deep_view()),
                Err(e) => sequence_model(self.deep_view()) is None && e.kind
                    == ErrorKind::InvalidType,
            },
    {
        match self {
            Group::Single(_) => Err(Error::new(ErrorKind::InvalidType, Vec::new())),
            Group::Multi(vs) => Ok(vs),
            Group::Delimited(v, sep) => {
                match v {
                    OptSlice::Absent => {
                        let mut out: Vec<OptSlice> = Vec::new();
                        out.push(OptSlice::Absent);
                        proof {
                            assert(out.deep_view() =~= seq![None::<Seq<u8>>]);
                        }
                        Ok(out)
                    },
                    OptSlice::Value(t) => {
                        let b = t.into_bytes();
                        let pieces = split_bytes(b.as_slice(), sep);
                        let ghost full = split_seq(b@, sep);
                        let ghost target = split_values(b@, sep);
                        let mut out: Vec<OptSlice> = Vec::new();
                        let mut idx: usize = 0;
                        proof {
                            assert(out.deep_view() =~= target.take(0));
                        }
                        while idx < pieces.len()
                            invariant
                                0 <= idx <= pieces@.len(),
                                pieces.deep_view() == full,
                                target == split_values(b@, sep),
                                out.deep_view() == target.take(idx as int),
                            decreases pieces@.len() - idx,
                        {
                            let piece = copy_bytes(pieces[idx].as_slice());
                            proof {
                                lemma_bytes_deep_view(pieces@[idx as int]);
                                assert(pieces.deep_view()[idx as int] == pieces@[
                                    idx as int
                                ].deep_view());
                                assert(piece@ == full[idx as int]);
                                assert(target[idx as int] == Some(full[idx as int]));
                            }
                            out.push(OptSlice::Value(RawSlice::new(piece)));
                            proof {
                                assert(out.deep_view() =~= target.take(idx + 1));
                            }
                            idx = idx + 1;
                        }
                        proof {
                            assert(target.take(target.len() as int) =~= target);
                        }
                        Ok(out)
                    },
                }
            },
            Group::Bracketed(bg) => {
                let BracketGroup { positional, mut named } = bg;
                let ghost g = (positional.deep_view(), named.deep_view());
                let ghost target = bracket_values(g);
                let mut out = positional;
                let ghost mut i: int = 0;
                proof {
                    assert(named.deep_view() =~= g.1.skip(0));
                    assert(out.deep_view() =~= target.take(g.0.len() as int));
                }
                while named.len() > 0
                    invariant
                        0 <= i <= g.1.len(),
                        named.deep_view() == g.1.skip(i),
                        target == bracket_values(g),
                        out.deep_view() == target.take(g.0.len() + i),
                    decreases named@.len(),
                {
                    let ghost t = g.1.skip(i);
                    let e = named.remove(0);
                    proof {
                        assert(e.deep_view() == t[0]);
                        assert(t[0] == g.1[i]);
                        assert(named.deep_view() =~= t.skip(1));
                        assert(t.skip(1) =~= g.1.skip(i + 1));
                        assert(target[g.0.len() + i] == g.1[i].1);
                    }
                    out.push(e.value);
                    proof {
                        assert(out.deep_view() =~= target.take(g.0.len() + i + 1));
                        i = i + 1;
                    }
                }
                proof {
                    assert(target.take(target.len() as int) =~= target);
                }
                Ok(out)
            },
        }
    }

    /// Reads the group as a sequence of exactly `n` elements: the reading a
    /// fixed-arity target makes. A sequence of any other length is
    /// `InvalidLength`; a group without sequences is `InvalidType`.
    pub fn sequence_exact(self, n: usize) -> (r: Result<Vec<OptSlice>, Error>)
        ensures
            match r {
                Ok(vs) => sequence_model(self.deep_view()) == Some(vs.deep_view()) && vs@.len()
                    == n,
                Err(e) => match sequence_model(self.deep_view()) {
                    None => e.kind == ErrorKind::InvalidType,
                    Some(vs) => vs.len() != n && e.kind == ErrorKind::InvalidLength,
                },
            },
    {
        match self.sequence() {
            Err(e) => Err(e),
            Ok(vs) => {
                if vs.len() == n {
                    proof {
                        assert(vs.deep_view().len() == vs@.len());
                    }
                    Ok(vs)
                } else {
                    Err(Error::new(ErrorKind::InvalidLength, Vec::new()))
                }
            },
        }
    }
}

} // verus!

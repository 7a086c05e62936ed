//! The library's laws: properties of the decode pipeline that hold for
//! every input, stated over the spec models the contracts use and proved
//! once here.

use vstd::prelude::*;

use crate::brackets::{bgroup_add, bracket_entries, brackets_put, BracketGroupModel};
use crate::de::{query_model, Config};
use crate::duplicate::{group_append, grouped};
use crate::entries::{
    decoded_key_pairs, find_key, keys_of, lemma_decoded_keys_pointwise, lemma_find_key,
    lemma_find_key_exact, lemma_find_key_none, lemma_upsert_keys, lemma_upsert_other,
    lemma_upsert_same, lookup,
};
use crate::group::{scalar_model, sequence_model, split_values, GroupModel};
use crate::slices::{is_hex_digit, pct_decode, PERCENT};
use crate::split::lemma_split_no_separator;
use crate::urlencoded::last_wins;

verus! {

/// Index of the last pair whose key is `k`, if the key occurs at all.
pub open spec fn last_occurrence<V>(ps: Seq<(Seq<u8>, V)>, k: Seq<u8>) -> Option<int>
    decreases ps.len(),
{
    if ps.len() == 0 {
        None
    } else if ps.last().0 == k {
        Some(ps.len() - 1)
    } else {
        last_occurrence(ps.drop_last(), k)
    }
}

/// What `last_occurrence` returns: a position of `k`, if `k` occurs.
pub proof fn lemma_last_occurrence<V>(ps: Seq<(Seq<u8>, V)>, k: Seq<u8>)
    ensures
        match last_occurrence(ps, k) {
            Some(i) => 0 <= i < ps.len() && ps[i].0 == k,
            None => forall|j: int| 0 <= j < ps.len() ==> ps[j].0 != k,
        },
    decreases ps.len(),
{
    if ps.len() == 0 {
    } else if ps.last().0 == k {
    } else {
        lemma_last_occurrence(ps.drop_last(), k);
        match last_occurrence(ps.drop_last(), k) {
            Some(i) => {
                assert(ps[i] == ps.drop_last()[i]);
            },
            None => {
                assert forall|j: int| 0 <= j < ps.len() implies ps[j].0 != k by {
                    if j < ps.len() - 1 {
                        assert(ps[j] == ps.drop_last()[j]);
                    }
                }
            },
        }
    }
}

/// The values of all occurrences of `k`, in encounter order.
pub open spec fn values_for<V>(ps: Seq<(Seq<u8>, V)>, k: Seq<u8>) -> Seq<V>
    decreases ps.len(),
{
    if ps.len() == 0 {
        Seq::empty()
    } else if ps.last().0 == k {
        values_for(ps.drop_last(), k).push(ps.last().1)
    } else {
        values_for(ps.drop_last(), k)
    }
}

/// Law of the overwriting fold (the UrlEncoded and Delimiter modes): a key
/// that occurs holds the value of its last occurrence, and a key that never
/// occurs is absent.
pub proof fn lemma_last_value_wins(ps: Seq<(Seq<u8>, Option<Seq<u8>>)>, k: Seq<u8>)
    ensures
        lookup(last_wins(ps), k) == match last_occurrence(ps, k) {
            Some(i) => Some(ps[i].1),
            None => None::<Option<Seq<u8>>>,
        },
    decreases ps.len(),
{
    if ps.len() == 0 {
    } else {
        let ps0 = ps.drop_last();
        let p = ps.last();
        lemma_last_value_wins(ps0, k);
        if p.0 == k {
            lemma_upsert_same(last_wins(ps0), k, p.1);
        } else {
            lemma_upsert_other(last_wins(ps0), p.0, p.1, k);
            lemma_last_occurrence(ps0, k);
            match last_occurrence(ps0, k) {
                Some(i) => {
                    assert(ps0[i] == ps[i]);
                },
                None => {},
            }
        }
    }
}

/// Appending a value under `k0` leaves every other key's group alone.
proof fn lemma_group_append_other(
    entries: Seq<(Seq<u8>, Seq<Option<Seq<u8>>>)>,
    k0: Seq<u8>,
    v: Option<Seq<u8>>,
    k: Seq<u8>,
)
    requires
        k != k0,
    ensures
        lookup(group_append(entries, k0, v), k) == lookup(entries, k),
{
    lemma_find_key(entries, k0);
    lemma_find_key(entries, k);
    let e2 = group_append(entries, k0, v);
    match find_key(entries, k) {
        Some(m) => {
            assert(e2[m].0 == k);
            assert forall|j: int| 0 <= j < m implies e2[j].0 != k by {
                if e2[j] != entries[j] {
                    assert(e2[j].0 == k0);
                }
            }
            lemma_find_key_exact(e2, k, m);
            assert(e2[m].1 == entries[m].1);
        },
        None => {
            assert forall|j: int| 0 <= j < e2.len() implies e2[j].0 != k by {
                if j < entries.len() && e2[j] == entries[j] {
                } else {
                    assert(e2[j].0 == k0);
                }
            }
            lemma_find_key_none(e2, k);
        },
    }
}

/// Appending under `k` extends `k`'s group by the value, opening the group
/// when the key is new.
proof fn lemma_group_append_same(
    entries: Seq<(Seq<u8>, Seq<Option<Seq<u8>>>)>,
    k: Seq<u8>,
    v: Option<Seq<u8>>,
)
    ensures
        lookup(group_append(entries, k, v), k) == match lookup(entries, k) {
            Some(g) => Some(g.push(v)),
            None => Some(seq![v]),
        },
{
    lemma_find_key(entries, k);
    let e2 = group_append(entries, k, v);
    match find_key(entries, k) {
        Some(i) => {
            assert forall|j: int| 0 <= j < i implies e2[j].0 != k by {
                assert(e2[j] == entries[j]);
            }
            lemma_find_key_exact(e2, k, i);
        },
        None => {
            lemma_find_key_exact(e2, k, entries.len() as int);
        },
    }
}

/// Duplicate law: a key's group holds exactly the values of all of its
/// occurrences, in encounter order; a key that never occurs has no group.
pub proof fn lemma_duplicate_collects_all(ps: Seq<(Seq<u8>, Option<Seq<u8>>)>, k: Seq<u8>)
    ensures
        lookup(grouped(ps), k) == if values_for(ps, k).len() > 0 {
            Some(values_for(ps, k))
        } else {
            None::<Seq<Option<Seq<u8>>>>
        },
    decreases ps.len(),
{
    if ps.len() == 0 {
    } else {
        let ps0 = ps.drop_last();
        let p = ps.last();
        lemma_duplicate_collects_all(ps0, k);
        if p.0 == k {
            lemma_group_append_same(grouped(ps0), k, p.1);
            if values_for(ps0, k).len() == 0 {
                assert(values_for(ps0, k).push(p.1) =~= seq![p.1]);
            }
        } else {
            lemma_group_append_other(grouped(ps0), p.0, p.1, k);
        }
    }
}

/// Duplicate law, scalar half: the group's last value is the value of the
/// key's last occurrence — the same value the overwriting fold keeps.
pub proof fn lemma_duplicate_scalar_is_last<V>(ps: Seq<(Seq<u8>, V)>, k: Seq<u8>)
    ensures
        (values_for(ps, k).len() > 0) == (last_occurrence(ps, k) is Some),
        values_for(ps, k).len() > 0 ==> values_for(ps, k).last() == ps[last_occurrence(
            ps,
            k,
        ).unwrap()].1,
    decreases ps.len(),
{
    if ps.len() == 0 {
    } else {
        let ps0 = ps.drop_last();
        lemma_duplicate_scalar_is_last(ps0, k);
        if ps.last().0 == k {
        } else {
            lemma_last_occurrence(ps0, k);
            match last_occurrence(ps0, k) {
                Some(i) => {
                    assert(ps0[i] == ps[i]);
                },
                None => {},
            }
        }
    }
}

/// The repeated-key modes agree on scalars: reading `k`'s Duplicate group
/// as a scalar yields the value of the last occurrence — exactly what the
/// UrlEncoded fold keeps for `k`.
pub proof fn lemma_modes_agree_on_scalars(ps: Seq<(Seq<u8>, Option<Seq<u8>>)>, k: Seq<u8>)
    requires
        last_occurrence(ps, k) is Some,
    ensures
        lookup(grouped(ps), k) is Some,
        scalar_model(GroupModel::Multi(lookup(grouped(ps), k).unwrap())) == Some(
            ps[last_occurrence(ps, k).unwrap()].1,
        ),
        lookup(last_wins(ps), k) == Some(ps[last_occurrence(ps, k).unwrap()].1),
{
    lemma_duplicate_scalar_is_last(ps, k);
    lemma_duplicate_collects_all(ps, k);
    lemma_last_value_wins(ps, k);
}

/// Delimiter law: a value that does not contain the separator reads as the
/// one-element sequence holding exactly that value.
pub proof fn lemma_delimiter_single_value(b: Seq<u8>, sep: u8)
    requires
        forall|i: int| 0 <= i < b.len() ==> b[i] != sep,
    ensures
        sequence_model(GroupModel::Delimited(Some(b), sep)) == Some(seq![Some(b)]),
{
    lemma_split_no_separator(b, sep);
    assert(split_values(b, sep) =~= seq![Some(b)]);
}

/// The distinct keys of a key list, each at its first occurrence.
pub open spec fn first_seen(ks: Seq<Seq<u8>>) -> Seq<Seq<u8>>
    decreases ks.len(),
{
    if ks.len() == 0 {
        Seq::empty()
    } else if first_seen(ks.drop_last()).contains(ks.last()) {
        first_seen(ks.drop_last())
    } else {
        first_seen(ks.drop_last()).push(ks.last())
    }
}

/// A key is in the key list exactly when `find_key` hits.
proof fn lemma_find_key_contains<V>(entries: Seq<(Seq<u8>, V)>, k: Seq<u8>)
    ensures
        (find_key(entries, k) is Some) == keys_of(entries).contains(k),
{
    lemma_find_key(entries, k);
    match find_key(entries, k) {
        Some(i) => {
            assert(keys_of(entries)[i] == k);
        },
        None => {
            if keys_of(entries).contains(k) {
                let i = choose|i: int|
                    0 <= i < keys_of(entries).len() && keys_of(entries)[i] == k;
                assert(entries[i].0 == k);
                assert(false);
            }
        },
    }
}

/// Ordering law of the overwriting fold (brackets' named slots use the same
/// upsert): the collection's keys stand in the order of each key's first
/// occurrence, never sorted or renumbered by the key text.
pub proof fn lemma_keys_in_first_seen_order(ps: Seq<(Seq<u8>, Option<Seq<u8>>)>)
    ensures
        keys_of(last_wins(ps)) == first_seen(keys_of(ps)),
    decreases ps.len(),
{
    if ps.len() == 0 {
        assert(keys_of(last_wins(ps)) =~= first_seen(keys_of(ps)));
    } else {
        let ps0 = ps.drop_last();
        let p = ps.last();
        lemma_keys_in_first_seen_order(ps0);
        lemma_upsert_keys(last_wins(ps0), p.0, p.1);
        lemma_find_key_contains(last_wins(ps0), p.0);
        assert(keys_of(ps).drop_last() =~= keys_of(ps0));
        assert(keys_of(ps).last() == p.0);
    }
}

/// Appending to a group never reorders keys either.
proof fn lemma_group_append_keys(
    entries: Seq<(Seq<u8>, Seq<Option<Seq<u8>>>)>,
    k: Seq<u8>,
    v: Option<Seq<u8>>,
)
    ensures
        keys_of(group_append(entries, k, v)) == if find_key(entries, k) is Some {
            keys_of(entries)
        } else {
            keys_of(entries).push(k)
        },
{
    lemma_find_key(entries, k);
    let e2 = group_append(entries, k, v);
    match find_key(entries, k) {
        Some(i) => {
            assert(keys_of(e2) =~= keys_of(entries));
        },
        None => {
            assert(keys_of(e2) =~= keys_of(entries).push(k));
        },
    }
}

/// The grouping fold obeys the same ordering law.
pub proof fn lemma_grouped_keys_in_first_seen_order(ps: Seq<(Seq<u8>, Option<Seq<u8>>)>)
    ensures
        keys_of(grouped(ps)) == first_seen(keys_of(ps)),
    decreases ps.len(),
{
    if ps.len() == 0 {
        assert(keys_of(grouped(ps)) =~= first_seen(keys_of(ps)));
    } else {
        let ps0 = ps.drop_last();
        let p = ps.last();
        lemma_grouped_keys_in_first_seen_order(ps0);
        lemma_group_append_keys(grouped(ps0), p.0, p.1);
        lemma_find_key_contains(grouped(ps0), p.0);
        assert(keys_of(ps).drop_last() =~= keys_of(ps0));
        assert(keys_of(ps).last() == p.0);
    }
}

/// The values of the pairs whose raw key percent-decodes to `k`, in order.
pub open spec fn values_for_decoded(ps: Seq<(Seq<u8>, Option<Seq<u8>>)>, k: Seq<u8>) -> Seq<
    Option<Seq<u8>>,
>
    decreases ps.len(),
{
    if ps.len() == 0 {
        Seq::empty()
    } else if pct_decode(ps.last().0) == Some(k) {
        values_for_decoded(ps.drop_last(), k).push(ps.last().1)
    } else {
        values_for_decoded(ps.drop_last(), k)
    }
}

/// Occurrence values line up under pointwise key decoding.
proof fn lemma_values_pointwise(
    ps: Seq<(Seq<u8>, Option<Seq<u8>>)>,
    dp: Seq<(Seq<u8>, Option<Seq<u8>>)>,
    k: Seq<u8>,
)
    requires
        dp.len() == ps.len(),
        forall|i: int|
            0 <= i < ps.len() ==> pct_decode(ps[i].0) == Some(#[trigger] dp[i].0) && dp[i].1
                == ps[i].1,
    ensures
        values_for(dp, k) == values_for_decoded(ps, k),
    decreases ps.len(),
{
    if ps.len() == 0 {
    } else {
        assert forall|i: int|
            0 <= i < ps.drop_last().len() implies pct_decode(ps.drop_last()[i].0) == Some(
            #[trigger] dp.drop_last()[i].0,
        ) && dp.drop_last()[i].1 == ps.drop_last()[i].1 by {
            assert(ps.drop_last()[i] == ps[i]);
            assert(dp.drop_last()[i] == dp[i]);
        }
        lemma_values_pointwise(ps.drop_last(), dp.drop_last(), k);
        assert(dp.last() == dp[ps.len() - 1]);
        assert(ps.last() == ps[ps.len() - 1]);
    }
}

/// Normalization law (Duplicate mode): after key decoding, `k`'s group
/// holds the values of every pair whose raw key decodes to `k`, whatever
/// percent-encoding each occurrence of the key used.
pub proof fn lemma_keys_normalized(
    ps: Seq<(Seq<u8>, Option<Seq<u8>>)>,
    dp: Seq<(Seq<u8>, Option<Seq<u8>>)>,
    k: Seq<u8>,
)
    requires
        decoded_key_pairs(ps) == Some(dp),
    ensures
        lookup(grouped(dp), k) == if values_for_decoded(ps, k).len() > 0 {
            Some(values_for_decoded(ps, k))
        } else {
            None::<Seq<Option<Seq<u8>>>>
        },
{
    lemma_decoded_keys_pointwise(ps, dp);
    lemma_values_pointwise(ps, dp, k);
    lemma_duplicate_collects_all(dp, k);
}

/// Is the escape opened at `i` malformed: a `%` not followed by two hex
/// digits?
pub open spec fn malformed_escape_at(s: Seq<u8>, i: int) -> bool {
    0 <= i < s.len() && s[i] == PERCENT && !(i + 3 <= s.len() && is_hex_digit(s[i + 1])
        && is_hex_digit(s[i + 2]))
}

/// Does the token hold a malformed escape anywhere?
pub open spec fn has_malformed_escape(s: Seq<u8>) -> bool {
    exists|i: int| malformed_escape_at(s, i)
}

/// Encoding law: percent-decoding fails — always with `InvalidEncoding`,
/// never a panic, by the decode contracts — exactly on the tokens that hold
/// a `%` not followed by two hex digits.
pub proof fn lemma_decode_fails_iff_malformed(s: Seq<u8>)
    ensures
        (pct_decode(s) is None) == has_malformed_escape(s),
    decreases s.len(),
{
    if s.len() == 0 {
        if has_malformed_escape(s) {
            let i = choose|i: int| malformed_escape_at(s, i);
            assert(false);
        }
    } else if s[0] == PERCENT {
        if s.len() >= 3 && is_hex_digit(s[1]) && is_hex_digit(s[2]) {
            lemma_decode_fails_iff_malformed(s.skip(3));
            if has_malformed_escape(s) {
                let i = choose|i: int| malformed_escape_at(s, i);
                assert(i >= 3);
                assert(s.skip(3)[i - 3] == s[i]);
                if i + 3 <= s.len() {
                    assert(s.skip(3)[i - 2] == s[i + 1]);
                    assert(s.skip(3)[i - 1] == s[i + 2]);
                }
                assert(malformed_escape_at(s.skip(3), i - 3));
            }
            if has_malformed_escape(s.skip(3)) {
                let j = choose|j: int| malformed_escape_at(s.skip(3), j);
                assert(s[j + 3] == s.skip(3)[j]);
                if j + 3 <= s.skip(3).len() {
                    assert(s[j + 4] == s.skip(3)[j + 1]);
                    assert(s[j + 5] == s.skip(3)[j + 2]);
                }
                assert(malformed_escape_at(s, j + 3));
            }
        } else {
            assert(malformed_escape_at(s, 0));
        }
    } else {
        lemma_decode_fails_iff_malformed(s.skip(1));
        if has_malformed_escape(s) {
            let i = choose|i: int| malformed_escape_at(s, i);
            assert(i >= 1);
            assert(s.skip(1)[i - 1] == s[i]);
            if i + 3 <= s.len() {
                assert(s.skip(1)[i] == s[i + 1]);
                assert(s.skip(1)[i + 1] == s[i + 2]);
            }
            assert(malformed_escape_at(s.skip(1), i - 1));
        }
        if has_malformed_escape(s.skip(1)) {
            let j = choose|j: int| malformed_escape_at(s.skip(1), j);
            assert(s[j + 1] == s.skip(1)[j]);
            if j + 3 <= s.skip(1).len() {
                assert(s[j + 2] == s.skip(1)[j + 1]);
                assert(s[j + 3] == s.skip(1)[j + 2]);
            }
            assert(malformed_escape_at(s, j + 1));
        }
    }
}

/// The group one root collects, folded from that root's own entries alone,
/// in encounter order.
pub open spec fn bgroup_of(
    ds: Seq<(Seq<u8>, Option<Seq<u8>>, Option<Seq<u8>>)>,
    root: Seq<u8>,
) -> Option<BracketGroupModel>
    decreases ds.len(),
{
    if ds.len() == 0 {
        None
    } else {
        let g0 = bgroup_of(ds.drop_last(), root);
        if ds.last().0 == root {
            match g0 {
                Some(g) => Some(bgroup_add(g, ds.last().1, ds.last().2)),
                None => Some(
                    bgroup_add((Seq::empty(), Seq::empty()), ds.last().1, ds.last().2),
                ),
            }
        } else {
            g0
        }
    }
}

/// Filing a value under `root0` leaves every other root's group alone.
proof fn lemma_brackets_put_other(
    entries: Seq<(Seq<u8>, BracketGroupModel)>,
    root0: Seq<u8>,
    seg: Option<Seq<u8>>,
    v: Option<Seq<u8>>,
    root: Seq<u8>,
)
    requires
        root != root0,
    ensures
        lookup(brackets_put(entries, root0, seg, v), root) == lookup(entries, root),
{
    lemma_find_key(entries, root0);
    lemma_find_key(entries, root);
    let e2 = brackets_put(entries, root0, seg, v);
    match find_key(entries, root) {
        Some(m) => {
            assert(e2[m].0 == root);
            assert forall|j: int| 0 <= j < m implies e2[j].0 != root by {
                if e2[j] != entries[j] {
                    assert(e2[j].0 == root0);
                }
            }
            lemma_find_key_exact(e2, root, m);
            assert(e2[m].1 == entries[m].1);
        },
        None => {
            assert forall|j: int| 0 <= j < e2.len() implies e2[j].0 != root by {
                if j < entries.len() && e2[j] == entries[j] {
                } else {
                    assert(e2[j].0 == root0);
                }
            }
            lemma_find_key_none(e2, root);
        },
    }
}

/// Filing under `root` extends its group, opening an empty one when new.
proof fn lemma_brackets_put_same(
    entries: Seq<(Seq<u8>, BracketGroupModel)>,
    root: Seq<u8>,
    seg: Option<Seq<u8>>,
    v: Option<Seq<u8>>,
)
    ensures
        lookup(brackets_put(entries, root, seg, v), root) == match lookup(entries, root) {
            Some(g) => Some(bgroup_add(g, seg, v)),
            None => Some(bgroup_add((Seq::empty(), Seq::empty()), seg, v)),
        },
{
    lemma_find_key(entries, root);
    let e2 = brackets_put(entries, root, seg, v);
    match find_key(entries, root) {
        Some(i) => {
            assert forall|j: int| 0 <= j < i implies e2[j].0 != root by {
                assert(e2[j] == entries[j]);
            }
            lemma_find_key_exact(e2, root, i);
        },
        None => {
            lemma_find_key_exact(e2, root, entries.len() as int);
        },
    }
}

/// Brackets law: a root's group is exactly the fold of that root's own
/// entries in encounter order — positional values appended as met, named
/// slots by the same upsert the flat modes use, so by first appearance of
/// the segment text, never by its numeric value.
pub proof fn lemma_brackets_group_by_root(
    ds: Seq<(Seq<u8>, Option<Seq<u8>>, Option<Seq<u8>>)>,
    root: Seq<u8>,
)
    ensures
        lookup(bracket_entries(ds), root) == bgroup_of(ds, root),
    decreases ds.len(),
{
    if ds.len() == 0 {
    } else {
        let ds0 = ds.drop_last();
        let d = ds.last();
        lemma_brackets_group_by_root(ds0, root);
        if d.0 == root {
            lemma_brackets_put_same(bracket_entries(ds0), root, d.1, d.2);
        } else {
            lemma_brackets_put_other(bracket_entries(ds0), d.0, d.1, d.2, root);
        }
    }
}

/// The non-empty segment texts filed under `root`, in encounter order.
pub open spec fn named_segs_of(
    ds: Seq<(Seq<u8>, Option<Seq<u8>>, Option<Seq<u8>>)>,
    root: Seq<u8>,
) -> Seq<Seq<u8>>
    decreases ds.len(),
{
    if ds.len() == 0 {
        Seq::empty()
    } else if ds.last().0 == root && (match ds.last().1 {
        Some(s) => s.len() > 0,
        None => false,
    }) {
        named_segs_of(ds.drop_last(), root).push(ds.last().1.unwrap())
    } else {
        named_segs_of(ds.drop_last(), root)
    }
}

/// Brackets law, ordering half: within one root's group the named slots
/// stand in first-appearance order of their segment text — `n[3]` before
/// `n[2]` stays before it, whatever the numbers say.
pub proof fn lemma_bracket_named_order(
    ds: Seq<(Seq<u8>, Option<Seq<u8>>, Option<Seq<u8>>)>,
    root: Seq<u8>,
)
    ensures
        match bgroup_of(ds, root) {
            None => named_segs_of(ds, root) == Seq::<Seq<u8>>::empty(),
            Some(g) => keys_of(g.1) == first_seen(named_segs_of(ds, root)),
        },
    decreases ds.len(),
{
    if ds.len() == 0 {
    } else {
        let ds0 = ds.drop_last();
        let d = ds.last();
        lemma_bracket_named_order(ds0, root);
        let empty_group = (Seq::<Option<Seq<u8>>>::empty(), Seq::<
            (Seq<u8>, Option<Seq<u8>>),
        >::empty());
        if d.0 == root {
            let base = match bgroup_of(ds0, root) {
                Some(g0) => g0,
                None => empty_group,
            };
            let named_seg = match d.1 {
                Some(s) => s.len() > 0,
                None => false,
            };
            if named_seg {
                let s = d.1.unwrap();
                let ns = named_segs_of(ds, root);
                assert(ns.drop_last() =~= named_segs_of(ds0, root));
                assert(ns.last() == s);
                lemma_upsert_keys(base.1, s, d.2);
                lemma_find_key_contains(base.1, s);
                if bgroup_of(ds0, root) is None {
                    assert(keys_of(base.1) =~= Seq::<Seq<u8>>::empty());
                    assert(first_seen(named_segs_of(ds0, root)) == Seq::<Seq<u8>>::empty());
                    assert(!first_seen(named_segs_of(ds0, root)).contains(s));
                }
            } else {
                assert(named_segs_of(ds, root) == named_segs_of(ds0, root));
                if bgroup_of(ds0, root) is None {
                    assert(keys_of(empty_group.1) =~= Seq::<Seq<u8>>::empty());
                    assert(first_seen(named_segs_of(ds, root)) == Seq::<Seq<u8>>::empty());
                }
            }
        } else {
            assert(named_segs_of(ds, root) == named_segs_of(ds0, root));
        }
    }
}

/// Idempotence law: what `from_bytes` yields is a pure function of the
/// input bytes and the mode — its contract pins the result to
/// `query_model` — so two results that both satisfy the decode contract for
/// the same input and mode are equal, and no hidden state can tell two runs
/// apart.
pub proof fn lemma_decode_deterministic(
    input: Seq<u8>,
    config: Config,
    r1: Option<Seq<(Seq<u8>, GroupModel)>>,
    r2: Option<Seq<(Seq<u8>, GroupModel)>>,
)
    requires
        r1 == query_model(input, config),
        r2 == query_model(input, config),
    ensures
        r1 == r2,
{
}

} // verus!

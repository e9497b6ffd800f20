//! Relation lists and their mathematical model.
//!
//! A relation is an ordered list of `(left, right)` byte-string pairs.
//! This module defines the spec-level views of such lists, the
//! first-appearance interning order, the four-pass consistency filter,
//! and the adjacency lists derived from an interned relation.

use vstd::prelude::*;

verus! {

// ---------------------------------------------------------------------
// Views
// ---------------------------------------------------------------------

/// The mathematical view of a parsed relation list.
pub open spec fn recs_view(v: Seq<(Vec<u8>, Vec<u8>)>) -> Seq<(Seq<u8>, Seq<u8>)> {
    Seq::new(v.len(), |i: int| (v[i].0@, v[i].1@))
}

/// The mathematical view of a list of entity names.
pub open spec fn names_view(v: Seq<Vec<u8>>) -> Seq<Seq<u8>> {
    Seq::new(v.len(), |i: int| v[i]@)
}

/// The mathematical view of a list of adjacency lists.
pub open spec fn tables_view(v: Seq<Vec<u16>>) -> Seq<Seq<u16>> {
    Seq::new(v.len(), |i: int| v[i]@)
}

/// The left column of a relation.
pub open spec fn lefts(rs: Seq<(Seq<u8>, Seq<u8>)>) -> Seq<Seq<u8>> {
    rs.map_values(|r: (Seq<u8>, Seq<u8>)| r.0)
}

/// The right column of a relation.
pub open spec fn rights(rs: Seq<(Seq<u8>, Seq<u8>)>) -> Seq<Seq<u8>> {
    rs.map_values(|r: (Seq<u8>, Seq<u8>)| r.1)
}

// ---------------------------------------------------------------------
// Interning order
// ---------------------------------------------------------------------

/// The distinct names of `names`, in order of first appearance: the
/// interning order of the identity interner.
pub open spec fn first_seen(names: Seq<Seq<u8>>) -> Seq<Seq<u8>>
    decreases names.len(),
{
    if names.len() == 0 {
        Seq::empty()
    } else {
        let prior = first_seen(names.drop_last());
        if prior.contains(names.last()) {
            prior
        } else {
            prior.push(names.last())
        }
    }
}

/// No name occurs twice.
pub open spec fn distinct(keys: Seq<Seq<u8>>) -> bool {
    forall|i: int, j: int| 0 <= i < j < keys.len() ==> keys[i] != keys[j]
}

/// The code assigned to `name` by the key table `keys`: its unique index.
pub open spec fn code_of(keys: Seq<Seq<u8>>, name: Seq<u8>) -> int {
    choose|i: int| 0 <= i < keys.len() && keys[i] == name
}

pub proof fn lemma_first_seen_contains(names: Seq<Seq<u8>>, x: Seq<u8>)
    ensures
        first_seen(names).contains(x) <==> names.contains(x),
    decreases names.len(),
{
    if names.len() > 0 {
        lemma_first_seen_contains(names.drop_last(), x);
        let prior = first_seen(names.drop_last());
        let whole = first_seen(names);
        if names.contains(x) {
            let i = choose|i: int| 0 <= i < names.len() && names[i] == x;
            if i < names.len() - 1 {
                assert(names.drop_last()[i] == x);
                assert(names.drop_last().contains(x));
                let p = choose|p: int| 0 <= p < prior.len() && prior[p] == x;
                assert(whole[p] == x);
                assert(whole.contains(x));
            } else {
                assert(x == names.last());
                if prior.contains(x) {
                    let p = choose|p: int| 0 <= p < prior.len() && prior[p] == x;
                    assert(whole[p] == x);
                } else {
                    assert(whole[prior.len() as int] == x);
                }
                assert(whole.contains(x));
            }
        }
        if whole.contains(x) {
            let p = choose|p: int| 0 <= p < whole.len() && whole[p] == x;
            if p < prior.len() {
                assert(prior[p] == x);
                assert(prior.contains(x));
                let i = choose|i: int| 0 <= i < names.drop_last().len() && names.drop_last()[i] == x;
                assert(names[i] == x);
                assert(names.contains(x));
            } else {
                assert(x == names.last());
                assert(names[names.len() - 1] == x);
                assert(names.contains(x));
            }
        }
    }
}

pub proof fn lemma_first_seen_distinct(names: Seq<Seq<u8>>)
    ensures
        distinct(first_seen(names)),
    decreases names.len(),
{
    if names.len() > 0 {
        lemma_first_seen_distinct(names.drop_last());
        let prior = first_seen(names.drop_last());
        if !prior.contains(names.last()) {
            let keys = prior.push(names.last());
            assert forall|i: int, j: int| 0 <= i < j < keys.len() implies keys[i] != keys[j] by {
                if j == keys.len() - 1 {
                    assert(prior[i] == keys[i]);
                    assert(prior.contains(prior[i]));
                }
            }
        }
    }
}

/// Every interned key occurs in the source column.
pub proof fn lemma_first_seen_sub(names: Seq<Seq<u8>>, k: int)
    requires
        0 <= k < first_seen(names).len(),
    ensures
        names.contains(first_seen(names)[k]),
{
    lemma_first_seen_contains(names, first_seen(names)[k]);
    assert(first_seen(names).contains(first_seen(names)[k]));
}

/// Interning a longer prefix never shrinks the key table.
pub proof fn lemma_first_seen_prefix_len(names: Seq<Seq<u8>>, i: int)
    requires
        0 <= i <= names.len(),
    ensures
        first_seen(names.take(i)).len() <= first_seen(names).len(),
    decreases names.len(),
{
    if i == names.len() {
        assert(names.take(i) =~= names);
    } else {
        assert(names.drop_last().take(i) =~= names.take(i));
        lemma_first_seen_prefix_len(names.drop_last(), i);
    }
}

/// One interning step.
pub proof fn lemma_first_seen_step(names: Seq<Seq<u8>>, i: int)
    requires
        0 <= i < names.len(),
    ensures
        first_seen(names.take(i + 1)) == (if first_seen(names.take(i)).contains(names[i]) {
            first_seen(names.take(i))
        } else {
            first_seen(names.take(i)).push(names[i])
        }),
{
    assert(names.take(i + 1).drop_last() =~= names.take(i));
    assert(names.take(i + 1).last() == names[i]);
}

pub proof fn lemma_code_of(keys: Seq<Seq<u8>>, name: Seq<u8>)
    requires
        distinct(keys),
        keys.contains(name),
    ensures
        0 <= code_of(keys, name) < keys.len(),
        keys[code_of(keys, name)] == name,
        forall|j: int| 0 <= j < keys.len() && keys[j] == name ==> j == code_of(keys, name),
{
    let i = choose|i: int| 0 <= i < keys.len() && keys[i] == name;
    assert(keys[i] == name);
}

// ---------------------------------------------------------------------
// The four-pass consistency filter
// ---------------------------------------------------------------------

/// The records of `rs` whose left name occurs as a right name of `other`.
pub open spec fn keep_left_in_rights(
    rs: Seq<(Seq<u8>, Seq<u8>)>,
    other: Seq<(Seq<u8>, Seq<u8>)>,
) -> Seq<(Seq<u8>, Seq<u8>)> {
    rs.filter(|r: (Seq<u8>, Seq<u8>)| rights(other).contains(r.0))
}

/// The records of `rs` whose right name occurs as a left name of `other`.
pub open spec fn keep_right_in_lefts(
    rs: Seq<(Seq<u8>, Seq<u8>)>,
    other: Seq<(Seq<u8>, Seq<u8>)>,
) -> Seq<(Seq<u8>, Seq<u8>)> {
    rs.filter(|r: (Seq<u8>, Seq<u8>)| lefts(other).contains(r.1))
}

/// Pass one: keep food-ingredient records whose food is liked by some dog.
pub open spec fn kept_fi_first(
    df: Seq<(Seq<u8>, Seq<u8>)>,
    fi: Seq<(Seq<u8>, Seq<u8>)>,
) -> Seq<(Seq<u8>, Seq<u8>)> {
    keep_left_in_rights(fi, df)
}

/// Pass two: keep ingredient-flavor records whose ingredient survives pass one.
pub open spec fn kept_if(
    df: Seq<(Seq<u8>, Seq<u8>)>,
    fi: Seq<(Seq<u8>, Seq<u8>)>,
    fl: Seq<(Seq<u8>, Seq<u8>)>,
) -> Seq<(Seq<u8>, Seq<u8>)> {
    keep_left_in_rights(fl, kept_fi_first(df, fi))
}

/// Pass three: re-filter food-ingredient records by ingredients that have a flavor.
pub open spec fn kept_fi(
    df: Seq<(Seq<u8>, Seq<u8>)>,
    fi: Seq<(Seq<u8>, Seq<u8>)>,
    fl: Seq<(Seq<u8>, Seq<u8>)>,
) -> Seq<(Seq<u8>, Seq<u8>)> {
    keep_right_in_lefts(kept_fi_first(df, fi), kept_if(df, fi, fl))
}

/// Pass four: re-filter dog-food records by foods that kept an ingredient.
pub open spec fn kept_df(
    df: Seq<(Seq<u8>, Seq<u8>)>,
    fi: Seq<(Seq<u8>, Seq<u8>)>,
    fl: Seq<(Seq<u8>, Seq<u8>)>,
) -> Seq<(Seq<u8>, Seq<u8>)> {
    keep_right_in_lefts(df, kept_fi(df, fi, fl))
}

/// One step of the left-column filter.
pub proof fn lemma_keep_left_step(
    rs: Seq<(Seq<u8>, Seq<u8>)>,
    other: Seq<(Seq<u8>, Seq<u8>)>,
    i: int,
)
    requires
        0 <= i < rs.len(),
    ensures
        keep_left_in_rights(rs.take(i + 1), other) == (if rights(other).contains(rs[i].0) {
            keep_left_in_rights(rs.take(i), other).push(rs[i])
        } else {
            keep_left_in_rights(rs.take(i), other)
        }),
{
    reveal(Seq::filter);
    assert(rs.take(i + 1).drop_last() =~= rs.take(i));
    assert(rs.take(i + 1).last() == rs[i]);
}

/// One step of the right-column filter.
pub proof fn lemma_keep_right_step(
    rs: Seq<(Seq<u8>, Seq<u8>)>,
    other: Seq<(Seq<u8>, Seq<u8>)>,
    i: int,
)
    requires
        0 <= i < rs.len(),
    ensures
        keep_right_in_lefts(rs.take(i + 1), other) == (if lefts(other).contains(rs[i].1) {
            keep_right_in_lefts(rs.take(i), other).push(rs[i])
        } else {
            keep_right_in_lefts(rs.take(i), other)
        }),
{
    reveal(Seq::filter);
    assert(rs.take(i + 1).drop_last() =~= rs.take(i));
    assert(rs.take(i + 1).last() == rs[i]);
}

/// What the left-column filter keeps: exactly the records whose left name
/// occurs on the right of `other`, and nothing from outside `rs`.
pub proof fn lemma_keep_left_props(rs: Seq<(Seq<u8>, Seq<u8>)>, other: Seq<(Seq<u8>, Seq<u8>)>)
    ensures
        forall|p: int|
            0 <= p < keep_left_in_rights(rs, other).len() ==> rights(other).contains(
                (#[trigger] keep_left_in_rights(rs, other)[p]).0,
            ) && rs.contains(keep_left_in_rights(rs, other)[p]),
        forall|i: int|
            0 <= i < rs.len() && rights(other).contains((#[trigger] rs[i]).0)
                ==> keep_left_in_rights(rs, other).contains(rs[i]),
    decreases rs.len(),
{
    reveal(Seq::filter);
    let out = keep_left_in_rights(rs, other);
    if rs.len() > 0 {
        lemma_keep_left_props(rs.drop_last(), other);
        let prior = keep_left_in_rights(rs.drop_last(), other);
        assert forall|p: int| 0 <= p < out.len() implies rights(other).contains(
            (#[trigger] out[p]).0,
        ) && rs.contains(out[p]) by {
            if p < prior.len() {
                assert(out[p] == prior[p]);
                let q = choose|q: int|
                    0 <= q < rs.drop_last().len() && rs.drop_last()[q] == prior[p];
                assert(rs[q] == out[p]);
            } else {
                assert(out[p] == rs.last());
                assert(rs[rs.len() - 1] == rs.last());
            }
        }
        assert forall|i: int|
            0 <= i < rs.len() && rights(other).contains((#[trigger] rs[i]).0) implies out.contains(
            rs[i],
        ) by {
            if i < rs.len() - 1 {
                assert(rs.drop_last()[i] == rs[i]);
                assert(prior.contains(rs[i]));
                let p = choose|p: int| 0 <= p < prior.len() && prior[p] == rs[i];
                assert(out[p] == rs[i]);
            } else {
                assert(out.last() == rs[i]);
            }
        }
    }
}

/// What the right-column filter keeps.
pub proof fn lemma_keep_right_props(rs: Seq<(Seq<u8>, Seq<u8>)>, other: Seq<(Seq<u8>, Seq<u8>)>)
    ensures
        forall|p: int|
            0 <= p < keep_right_in_lefts(rs, other).len() ==> lefts(other).contains(
                (#[trigger] keep_right_in_lefts(rs, other)[p]).1,
            ) && rs.contains(keep_right_in_lefts(rs, other)[p]),
        forall|i: int|
            0 <= i < rs.len() && lefts(other).contains((#[trigger] rs[i]).1)
                ==> keep_right_in_lefts(rs, other).contains(rs[i]),
    decreases rs.len(),
{
    reveal(Seq::filter);
    let out = keep_right_in_lefts(rs, other);
    if rs.len() > 0 {
        lemma_keep_right_props(rs.drop_last(), other);
        let prior = keep_right_in_lefts(rs.drop_last(), other);
        assert forall|p: int| 0 <= p < out.len() implies lefts(other).contains(
            (#[trigger] out[p]).1,
        ) && rs.contains(out[p]) by {
            if p < prior.len() {
                assert(out[p] == prior[p]);
                let q = choose|q: int|
                    0 <= q < rs.drop_last().len() && rs.drop_last()[q] == prior[p];
                assert(rs[q] == out[p]);
            } else {
                assert(out[p] == rs.last());
                assert(rs[rs.len() - 1] == rs.last());
            }
        }
        assert forall|i: int|
            0 <= i < rs.len() && lefts(other).contains((#[trigger] rs[i]).1) implies out.contains(
            rs[i],
        ) by {
            if i < rs.len() - 1 {
                assert(rs.drop_last()[i] == rs[i]);
                assert(prior.contains(rs[i]));
                let p = choose|p: int| 0 <= p < prior.len() && prior[p] == rs[i];
                assert(out[p] == rs[i]);
            } else {
                assert(out.last() == rs[i]);
            }
        }
    }
}

// ---------------------------------------------------------------------
// Adjacency lists of an interned relation
// ---------------------------------------------------------------------

/// The neighbor list of left-key number `k`: the right codes of the records
/// whose left name is interned as `k`, in record order, duplicates kept.
pub open spec fn forward_bucket(
    rs: Seq<(Seq<u8>, Seq<u8>)>,
    lkeys: Seq<Seq<u8>>,
    rkeys: Seq<Seq<u8>>,
    k: int,
) -> Seq<u16> {
    rs.filter(|r: (Seq<u8>, Seq<u8>)| lkeys.contains(r.0) && code_of(lkeys, r.0) == k).map_values(
        |r: (Seq<u8>, Seq<u8>)| code_of(rkeys, r.1) as u16,
    )
}

/// The neighbor list of right-key number `k` in the reverse direction.
pub open spec fn reverse_bucket(
    rs: Seq<(Seq<u8>, Seq<u8>)>,
    lkeys: Seq<Seq<u8>>,
    rkeys: Seq<Seq<u8>>,
    k: int,
) -> Seq<u16> {
    rs.filter(|r: (Seq<u8>, Seq<u8>)| rkeys.contains(r.1) && code_of(rkeys, r.1) == k).map_values(
        |r: (Seq<u8>, Seq<u8>)| code_of(lkeys, r.0) as u16,
    )
}

/// The forward adjacency table of a relation: one bucket per left key.
pub open spec fn forward_lists(
    rs: Seq<(Seq<u8>, Seq<u8>)>,
    lkeys: Seq<Seq<u8>>,
    rkeys: Seq<Seq<u8>>,
) -> Seq<Seq<u16>> {
    Seq::new(lkeys.len(), |k: int| forward_bucket(rs, lkeys, rkeys, k))
}

/// The reverse adjacency table of a relation: one bucket per right key.
pub open spec fn reverse_lists(
    rs: Seq<(Seq<u8>, Seq<u8>)>,
    lkeys: Seq<Seq<u8>>,
    rkeys: Seq<Seq<u8>>,
) -> Seq<Seq<u16>> {
    Seq::new(rkeys.len(), |k: int| reverse_bucket(rs, lkeys, rkeys, k))
}

/// One step of building the forward table.
pub proof fn lemma_forward_bucket_step(
    rs: Seq<(Seq<u8>, Seq<u8>)>,
    lkeys: Seq<Seq<u8>>,
    rkeys: Seq<Seq<u8>>,
    i: int,
    k: int,
)
    requires
        0 <= i < rs.len(),
        lkeys.contains(rs[i].0),
        distinct(lkeys),
    ensures
        forward_bucket(rs.take(i + 1), lkeys, rkeys, k) == (if code_of(lkeys, rs[i].0) == k {
            forward_bucket(rs.take(i), lkeys, rkeys, k).push(code_of(rkeys, rs[i].1) as u16)
        } else {
            forward_bucket(rs.take(i), lkeys, rkeys, k)
        }),
{
    reveal(Seq::filter);
    assert(rs.take(i + 1).drop_last() =~= rs.take(i));
    assert(rs.take(i + 1).last() == rs[i]);
    let keep = rs.take(i + 1).filter(
        |r: (Seq<u8>, Seq<u8>)| lkeys.contains(r.0) && code_of(lkeys, r.0) == k,
    );
    let prior = rs.take(i).filter(
        |r: (Seq<u8>, Seq<u8>)| lkeys.contains(r.0) && code_of(lkeys, r.0) == k,
    );
    if code_of(lkeys, rs[i].0) == k {
        assert(keep == prior.push(rs[i]));
        assert(forward_bucket(rs.take(i + 1), lkeys, rkeys, k) =~= forward_bucket(
            rs.take(i),
            lkeys,
            rkeys,
            k,
        ).push(code_of(rkeys, rs[i].1) as u16));
    } else {
        assert(keep == prior);
    }
}

/// One step of building the reverse table.
pub proof fn lemma_reverse_bucket_step(
    rs: Seq<(Seq<u8>, Seq<u8>)>,
    lkeys: Seq<Seq<u8>>,
    rkeys: Seq<Seq<u8>>,
    i: int,
    k: int,
)
    requires
        0 <= i < rs.len(),
        rkeys.contains(rs[i].1),
        distinct(rkeys),
    ensures
        reverse_bucket(rs.take(i + 1), lkeys, rkeys, k) == (if code_of(rkeys, rs[i].1) == k {
            reverse_bucket(rs.take(i), lkeys, rkeys, k).push(code_of(lkeys, rs[i].0) as u16)
        } else {
            reverse_bucket(rs.take(i), lkeys, rkeys, k)
        }),
{
    reveal(Seq::filter);
    assert(rs.take(i + 1).drop_last() =~= rs.take(i));
    assert(rs.take(i + 1).last() == rs[i]);
    let keep = rs.take(i + 1).filter(
        |r: (Seq<u8>, Seq<u8>)| rkeys.contains(r.1) && code_of(rkeys, r.1) == k,
    );
    let prior = rs.take(i).filter(
        |r: (Seq<u8>, Seq<u8>)| rkeys.contains(r.1) && code_of(rkeys, r.1) == k,
    );
    if code_of(rkeys, rs[i].1) == k {
        assert(keep == prior.push(rs[i]));
        assert(reverse_bucket(rs.take(i + 1), lkeys, rkeys, k) =~= reverse_bucket(
            rs.take(i),
            lkeys,
            rkeys,
            k,
        ).push(code_of(lkeys, rs[i].0) as u16));
    } else {
        assert(keep == prior);
    }
}

/// A record whose left name is interned as `k` puts a neighbor into
/// forward bucket `k`.
pub proof fn lemma_forward_bucket_nonempty(
    rs: Seq<(Seq<u8>, Seq<u8>)>,
    lkeys: Seq<Seq<u8>>,
    rkeys: Seq<Seq<u8>>,
    k: int,
    j: int,
)
    requires
        0 <= j < rs.len(),
        lkeys.contains(rs[j].0),
        code_of(lkeys, rs[j].0) == k,
    ensures
        forward_bucket(rs, lkeys, rkeys, k).len() >= 1,
    decreases rs.len(),
{
    reveal(Seq::filter);
    if j == rs.len() - 1 {
    } else {
        assert(rs.drop_last()[j] == rs[j]);
        lemma_forward_bucket_nonempty(rs.drop_last(), lkeys, rkeys, k, j);
    }
}

/// A record whose right name is interned as `k` puts a neighbor into
/// reverse bucket `k`.
pub proof fn lemma_reverse_bucket_nonempty(
    rs: Seq<(Seq<u8>, Seq<u8>)>,
    lkeys: Seq<Seq<u8>>,
    rkeys: Seq<Seq<u8>>,
    k: int,
    j: int,
)
    requires
        0 <= j < rs.len(),
        rkeys.contains(rs[j].1),
        code_of(rkeys, rs[j].1) == k,
    ensures
        reverse_bucket(rs, lkeys, rkeys, k).len() >= 1,
    decreases rs.len(),
{
    reveal(Seq::filter);
    if j == rs.len() - 1 {
    } else {
        assert(rs.drop_last()[j] == rs[j]);
        lemma_reverse_bucket_nonempty(rs.drop_last(), lkeys, rkeys, k, j);
    }
}

/// Every neighbor code in a forward bucket is in range.
pub proof fn lemma_forward_bucket_vals(
    rs: Seq<(Seq<u8>, Seq<u8>)>,
    lkeys: Seq<Seq<u8>>,
    rkeys: Seq<Seq<u8>>,
    k: int,
)
    requires
        distinct(rkeys),
        rkeys.len() <= 0x10000,
        forall|j: int| 0 <= j < rs.len() ==> rkeys.contains((#[trigger] rs[j]).1),
    ensures
        forall|p: int|
            0 <= p < forward_bucket(rs, lkeys, rkeys, k).len() ==> #[trigger] forward_bucket(
                rs,
                lkeys,
                rkeys,
                k,
            )[p] < rkeys.len(),
    decreases rs.len(),
{
    reveal(Seq::filter);
    let out = forward_bucket(rs, lkeys, rkeys, k);
    if rs.len() > 0 {
        assert forall|j: int| 0 <= j < rs.drop_last().len() implies rkeys.contains(
            (#[trigger] rs.drop_last()[j]).1,
        ) by {
            assert(rs.drop_last()[j] == rs[j]);
        }
        lemma_forward_bucket_vals(rs.drop_last(), lkeys, rkeys, k);
        let prior = forward_bucket(rs.drop_last(), lkeys, rkeys, k);
        assert forall|p: int| 0 <= p < out.len() implies #[trigger] out[p] < rkeys.len() by {
            if p < prior.len() {
                assert(out[p] == prior[p]);
            } else {
                assert(rs[rs.len() - 1] == rs.last());
                lemma_code_of(rkeys, rs.last().1);
            }
        }
    }
}

/// Every neighbor code in a reverse bucket is in range.
pub proof fn lemma_reverse_bucket_vals(
    rs: Seq<(Seq<u8>, Seq<u8>)>,
    lkeys: Seq<Seq<u8>>,
    rkeys: Seq<Seq<u8>>,
    k: int,
)
    requires
        distinct(lkeys),
        lkeys.len() <= 0x10000,
        forall|j: int| 0 <= j < rs.len() ==> lkeys.contains((#[trigger] rs[j]).0),
    ensures
        forall|p: int|
            0 <= p < reverse_bucket(rs, lkeys, rkeys, k).len() ==> #[trigger] reverse_bucket(
                rs,
                lkeys,
                rkeys,
                k,
            )[p] < lkeys.len(),
    decreases rs.len(),
{
    reveal(Seq::filter);
    let out = reverse_bucket(rs, lkeys, rkeys, k);
    if rs.len() > 0 {
        assert forall|j: int| 0 <= j < rs.drop_last().len() implies lkeys.contains(
            (#[trigger] rs.drop_last()[j]).0,
        ) by {
            assert(rs.drop_last()[j] == rs[j]);
        }
        lemma_reverse_bucket_vals(rs.drop_last(), lkeys, rkeys, k);
        let prior = reverse_bucket(rs.drop_last(), lkeys, rkeys, k);
        assert forall|p: int| 0 <= p < out.len() implies #[trigger] out[p] < lkeys.len() by {
            if p < prior.len() {
                assert(out[p] == prior[p]);
            } else {
                assert(rs[rs.len() - 1] == rs.last());
                lemma_code_of(lkeys, rs.last().0);
            }
        }
    }
}

/// The number of positions of `l` holding code `v`.
pub open spec fn count_code(l: Seq<u16>, v: u16) -> int
    decreases l.len(),
{
    if l.len() == 0 {
        0
    } else {
        count_code(l.drop_last(), v) + if l.last() == v {
            1int
        } else {
            0int
        }
    }
}

/// The number of records of `rs` equal to the pair `(a, b)`.
pub open spec fn count_pair(rs: Seq<(Seq<u8>, Seq<u8>)>, a: Seq<u8>, b: Seq<u8>) -> int
    decreases rs.len(),
{
    if rs.len() == 0 {
        0
    } else {
        count_pair(rs.drop_last(), a, b) + if rs.last().0 == a && rs.last().1 == b {
            1int
        } else {
            0int
        }
    }
}

/// Weight by multiplicity: a neighbor code occurs in an adjacency list
/// exactly as often as its pair occurs in the source relation, so a
/// repeated pair weights uniform sampling in proportion to its
/// multiplicity.
pub proof fn lemma_weight_by_multiplicity(
    rs: Seq<(Seq<u8>, Seq<u8>)>,
    lkeys: Seq<Seq<u8>>,
    rkeys: Seq<Seq<u8>>,
    k: int,
    c: int,
)
    requires
        distinct(lkeys),
        distinct(rkeys),
        rkeys.len() <= 0x10000,
        0 <= k < lkeys.len(),
        0 <= c < rkeys.len(),
        forall|j: int| 0 <= j < rs.len() ==> rkeys.contains((#[trigger] rs[j]).1),
    ensures
        count_code(forward_bucket(rs, lkeys, rkeys, k), c as u16) == count_pair(
            rs,
            lkeys[k],
            rkeys[c],
        ),
    decreases rs.len(),
{
    reveal(Seq::filter);
    if rs.len() > 0 {
        assert forall|j: int| 0 <= j < rs.drop_last().len() implies rkeys.contains(
            (#[trigger] rs.drop_last()[j]).1,
        ) by {
            assert(rs.drop_last()[j] == rs[j]);
        }
        lemma_weight_by_multiplicity(rs.drop_last(), lkeys, rkeys, k, c);
        let last = rs.last();
        assert(rkeys.contains(rs[rs.len() - 1].1));
        assert(last == rs[rs.len() - 1]);
        lemma_code_of(rkeys, last.1);
        let prior = forward_bucket(rs.drop_last(), lkeys, rkeys, k);
        let out = forward_bucket(rs, lkeys, rkeys, k);
        if lkeys.contains(last.0) && code_of(lkeys, last.0) == k {
            lemma_code_of(lkeys, last.0);
            assert(last.0 == lkeys[k]);
            assert(out =~= prior.push(code_of(rkeys, last.1) as u16));
            assert(out.drop_last() =~= prior);
            // The pushed code matches `c` exactly when the pair's right
            // name is key number `c`.
            if code_of(rkeys, last.1) == c {
                assert(last.1 == rkeys[c]);
            } else {
                assert(last.1 != rkeys[c]);
                assert((code_of(rkeys, last.1) as u16) != (c as u16));
            }
        } else {
            assert(out == prior);
            if last.0 == lkeys[k] {
                assert(lkeys.contains(lkeys[k]));
                lemma_code_of(lkeys, lkeys[k]);
                assert(false);
            }
        }
    }
}

// ---------------------------------------------------------------------
// Executable helpers
// ---------------------------------------------------------------------

/// Byte-string equality.
pub fn bytes_eq(a: &Vec<u8>, b: &Vec<u8>) -> (r: bool)
    ensures
        r <==> a@ == b@,
{
    if a.len() != b.len() {
        return false;
    }
    let n = a.len();
    let mut i: usize = 0;
    while i < n
        invariant
            n == a@.len(),
            n == b@.len(),
            0 <= i <= n,
            forall|j: int| 0 <= j < i ==> a@[j] == b@[j],
        decreases n - i,
    {
        if a[i] != b[i] {
            return false;
        }
        i = i + 1;
    }
    proof {
        assert(a@ =~= b@);
    }
    true
}

/// An owned copy of a byte string.
pub fn copy_bytes(v: &Vec<u8>) -> (r: Vec<u8>)
    ensures
        r@ == v@,
{
    let n = v.len();
    let mut r: Vec<u8> = Vec::new();
    let mut i: usize = 0;
    while i < n
        invariant
            n == v@.len(),
            0 <= i <= n,
            r@ =~= v@.take(i as int),
        decreases n - i,
    {
        r.push(v[i]);
        i = i + 1;
    }
    proof {
        assert(v@.take(n as int) =~= v@);
    }
    r
}

/// An owned copy of a record.
pub fn copy_rec(r: &(Vec<u8>, Vec<u8>)) -> (out: (Vec<u8>, Vec<u8>))
    ensures
        out.0@ == r.0@,
        out.1@ == r.1@,
{
    (copy_bytes(&r.0), copy_bytes(&r.1))
}

/// Does `name` occur in the left column?
pub fn appears_left(rs: &Vec<(Vec<u8>, Vec<u8>)>, name: &Vec<u8>) -> (r: bool)
    ensures
        r == lefts(recs_view(rs@)).contains(name@),
{
    let n = rs.len();
    let mut i: usize = 0;
    while i < n
        invariant
            n == rs@.len(),
            0 <= i <= n,
            forall|j: int| 0 <= j < i ==> lefts(recs_view(rs@))[j] != name@,
        decreases n - i,
    {
        if bytes_eq(&rs[i].0, name) {
            proof {
                assert(lefts(recs_view(rs@))[i as int] == name@);
            }
            return true;
        }
        i = i + 1;
    }
    proof {
        if lefts(recs_view(rs@)).contains(name@) {
            let w = choose|w: int|
                0 <= w < lefts(recs_view(rs@)).len() && lefts(recs_view(rs@))[w] == name@;
        }
    }
    false
}

/// Does `name` occur in the right column?
pub fn appears_right(rs: &Vec<(Vec<u8>, Vec<u8>)>, name: &Vec<u8>) -> (r: bool)
    ensures
        r == rights(recs_view(rs@)).contains(name@),
{
    let n = rs.len();
    let mut i: usize = 0;
    while i < n
        invariant
            n == rs@.len(),
            0 <= i <= n,
            forall|j: int| 0 <= j < i ==> rights(recs_view(rs@))[j] != name@,
        decreases n - i,
    {
        if bytes_eq(&rs[i].1, name) {
            proof {
                assert(rights(recs_view(rs@))[i as int] == name@);
            }
            return true;
        }
        i = i + 1;
    }
    proof {
        if rights(recs_view(rs@)).contains(name@) {
            let w = choose|w: int|
                0 <= w < rights(recs_view(rs@)).len() && rights(recs_view(rs@))[w] == name@;
        }
    }
    false
}

/// The records of `rs` whose left name occurs on the right of `other`.
pub fn filter_left_in_rights(rs: &Vec<(Vec<u8>, Vec<u8>)>, other: &Vec<(Vec<u8>, Vec<u8>)>) -> (out:
    Vec<(Vec<u8>, Vec<u8>)>)
    ensures
        recs_view(out@) == keep_left_in_rights(recs_view(rs@), recs_view(other@)),
{
    let n = rs.len();
    let mut out: Vec<(Vec<u8>, Vec<u8>)> = Vec::new();
    let mut i: usize = 0;
    proof {
        assert(recs_view(rs@).take(0) =~= Seq::<(Seq<u8>, Seq<u8>)>::empty());
        assert(recs_view(out@) =~= Seq::<(Seq<u8>, Seq<u8>)>::empty());
        reveal(Seq::filter);
    }
    while i < n
        invariant
            n == rs@.len(),
            0 <= i <= n,
            recs_view(out@) =~= keep_left_in_rights(
                recs_view(rs@).take(i as int),
                recs_view(other@),
            ),
        decreases n - i,
    {
        proof {
            lemma_keep_left_step(recs_view(rs@), recs_view(other@), i as int);
            assert(recs_view(rs@)[i as int] == (rs@[i as int].0@, rs@[i as int].1@));
        }
        if appears_right(other, &rs[i].0) {
            let c = copy_rec(&rs[i]);
            proof {
                assert(recs_view(out@.push(c)) =~= recs_view(out@).push((c.0@, c.1@)));
            }
            out.push(c);
        }
        i = i + 1;
    }
    proof {
        assert(recs_view(rs@).take(n as int) =~= recs_view(rs@));
    }
    out
}

/// The records of `rs` whose right name occurs on the left of `other`.
pub fn filter_right_in_lefts(rs: &Vec<(Vec<u8>, Vec<u8>)>, other: &Vec<(Vec<u8>, Vec<u8>)>) -> (out:
    Vec<(Vec<u8>, Vec<u8>)>)
    ensures
        recs_view(out@) == keep_right_in_lefts(recs_view(rs@), recs_view(other@)),
{
    let n = rs.len();
    let mut out: Vec<(Vec<u8>, Vec<u8>)> = Vec::new();
    let mut i: usize = 0;
    proof {
        assert(recs_view(rs@).take(0) =~= Seq::<(Seq<u8>, Seq<u8>)>::empty());
        assert(recs_view(out@) =~= Seq::<(Seq<u8>, Seq<u8>)>::empty());
        reveal(Seq::filter);
    }
    while i < n
        invariant
            n == rs@.len(),
            0 <= i <= n,
            recs_view(out@) =~= keep_right_in_lefts(
                recs_view(rs@).take(i as int),
                recs_view(other@),
            ),
        decreases n - i,
    {
        proof {
            lemma_keep_right_step(recs_view(rs@), recs_view(other@), i as int);
            assert(recs_view(rs@)[i as int] == (rs@[i as int].0@, rs@[i as int].1@));
        }
        if appears_left(other, &rs[i].1) {
            let c = copy_rec(&rs[i]);
            proof {
                assert(recs_view(out@.push(c)) =~= recs_view(out@).push((c.0@, c.1@)));
            }
            out.push(c);
        }
        i = i + 1;
    }
    proof {
        assert(recs_view(rs@).take(n as int) =~= recs_view(rs@));
    }
    out
}

/// The code of `name` in the key table, if it was interned.
pub fn find_code(keys: &Vec<Vec<u8>>, name: &Vec<u8>) -> (r: Option<usize>)
    requires
        distinct(names_view(keys@)),
    ensures
        match r {
            Some(i) => names_view(keys@).contains(name@) && i == code_of(names_view(keys@), name@),
            None => !names_view(keys@).contains(name@),
        },
{
    let n = keys.len();
    let mut i: usize = 0;
    while i < n
        invariant
            n == keys@.len(),
            0 <= i <= n,
            distinct(names_view(keys@)),
            forall|j: int| 0 <= j < i ==> names_view(keys@)[j] != name@,
        decreases n - i,
    {
        if bytes_eq(&keys[i], name) {
            proof {
                assert(names_view(keys@)[i as int] == name@);
                assert(names_view(keys@).contains(name@));
                lemma_code_of(names_view(keys@), name@);
            }
            return Some(i);
        }
        i = i + 1;
    }
    proof {
        assert forall|j: int| 0 <= j < keys@.len() implies names_view(keys@)[j] != name@ by {}
        if names_view(keys@).contains(name@) {
            let w = choose|w: int| 0 <= w < keys@.len() && names_view(keys@)[w] == name@;
        }
    }
    None
}

} // verus!

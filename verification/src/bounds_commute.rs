//! The bounds of two values do not depend on the order in which the two are given.
use crate::bounds::{
    glb, glb_entries, glb_items, lemma_bounds_wf, lub, lub_entries, lub_items, add_missing,
};
use crate::bounds_laws::{
    added, common_at, has_entry, is_added, is_common, joined, lemma_glb_entries,
    lemma_key_index, lemma_key_index_is, lemma_lub_entries_some, lemma_lub_facts,
    lemma_same_keys, lub_facts, partner,
};
use crate::meaningful::float_mle;
use crate::meaningful_laws::{has_key, keys_within, lemma_mle_antisymmetric, lemma_wf_normal};
use crate::order::{entries_wf, key_index, keys_ascend};
use crate::value::{Tree, Value};
use vstd::prelude::*;

verus! {

/// The bounds of `u` and `v` are those of `v` and `u`.
pub open spec fn commute(u: Tree, v: Tree) -> bool {
    glb(u, v) == glb(v, u) && lub(u, v) == lub(v, u)
}

/// The bounds of each value of `x` and each value of `y` do not depend on the order.
pub open spec fn values_commute(x: Seq<(Tree, Tree)>, y: Seq<(Tree, Tree)>) -> bool {
    forall|i: int, j: int|
        0 <= i < x.len() && 0 <= j < y.len() ==> #[trigger] commute(x[i].1, y[j].1)
}

/// Entries with ascending keys that hold each other's entries are the same.
pub proof fn lemma_entries_equal(r: Seq<(Tree, Tree)>, s: Seq<(Tree, Tree)>)
    requires
        keys_ascend(r),
        keys_ascend(s),
        forall|k: int| 0 <= k < r.len() ==> has_entry(s, #[trigger] r[k]),
        forall|k: int| 0 <= k < s.len() ==> has_entry(r, #[trigger] s[k]),
    ensures
        r == s,
{
    assert forall|k: int| 0 <= k < r.len() implies has_key(s, (#[trigger] r[k]).0) by {
        assert(has_entry(s, r[k]));
        let q = choose|q: int| 0 <= q < s.len() && (#[trigger] s[q]) == r[k];
        assert(s[q].0 == r[k].0);
    }
    assert forall|k: int| 0 <= k < s.len() implies has_key(r, (#[trigger] s[k]).0) by {
        assert(has_entry(r, s[k]));
        let q = choose|q: int| 0 <= q < r.len() && (#[trigger] r[q]) == s[k];
        assert(r[q].0 == s[k].0);
    }
    assert(keys_within(r, s));
    assert(keys_within(s, r));
    lemma_same_keys(r, s);
    assert forall|k: int| 0 <= k < r.len() implies r[k] == s[k] by {
        assert(has_entry(s, r[k]));
        let q = choose|q: int| 0 <= q < s.len() && (#[trigger] s[q]) == r[k];
        assert(r[k].0 == s[k].0);
        lemma_key_index(s, r[k].0, q);
        lemma_key_index(s, r[k].0, k);
    }
    assert(r =~= s);
}

/// Where each common key has a greatest lower bound of its two values, the common entries
/// exist.
proof fn lemma_common_some(x: Seq<(Tree, Tree)>, y: Seq<(Tree, Tree)>, n: nat)
    requires
        n <= x.len(),
        forall|i: int|
            0 <= i < n && key_index(y, (#[trigger] x[i]).0).is_some() ==> glb(
                x[i].1,
                y[partner(x, y, i)].1,
            ).is_some(),
    ensures
        glb_entries(x, y, n).is_some(),
    decreases n,
{
    if n > 0 {
        lemma_common_some(x, y, (n - 1) as nat);
        let i = n - 1;
        assert(key_index(y, x[i].0).is_some() ==> glb(x[i].1, y[partner(x, y, i)].1).is_some());
    }
}

/// Where the common entries of `x` and `y` exist, those of `y` and `x` exist.
proof fn lemma_common_swap(x: Seq<(Tree, Tree)>, y: Seq<(Tree, Tree)>)
    requires
        entries_wf(x),
        entries_wf(y),
        values_commute(x, y),
        glb_entries(x, y, x.len()).is_some(),
    ensures
        glb_entries(y, x, y.len()).is_some(),
{
    lemma_glb_entries(x, y, x.len());
    assert forall|j: int|
        0 <= j < y.len() && key_index(x, (#[trigger] y[j]).0).is_some() implies glb(
        y[j].1,
        x[partner(y, x, j)].1,
    ).is_some() by {
        lemma_key_index_is(x, y[j].0);
        let i = partner(y, x, j);
        assert(x[i].0 == y[j].0);
        assert(has_key(y, x[i].0));
        lemma_key_index(y, x[i].0, j);
        assert(glb(x[i].1, y[j].1).is_some());
        assert(commute(x[i].1, y[j].1));
    }
    lemma_common_some(y, x, y.len());
}

/// Each common entry of `x` and `y` is a common entry of `y` and `x`.
proof fn lemma_common_within(x: Seq<(Tree, Tree)>, y: Seq<(Tree, Tree)>)
    requires
        entries_wf(x),
        entries_wf(y),
        values_commute(x, y),
        glb_entries(x, y, x.len()).is_some(),
        glb_entries(y, x, y.len()).is_some(),
    ensures
        forall|k: int|
            0 <= k < glb_entries(x, y, x.len()).unwrap().len() ==> has_entry(
                glb_entries(y, x, y.len()).unwrap(),
                #[trigger] glb_entries(x, y, x.len()).unwrap()[k],
            ),
{
    let r = glb_entries(x, y, x.len()).unwrap();
    let s = glb_entries(y, x, y.len()).unwrap();
    lemma_glb_entries(x, y, x.len());
    lemma_glb_entries(y, x, y.len());
    assert forall|k: int| 0 <= k < r.len() implies has_entry(s, #[trigger] r[k]) by {
        let e = r[k];
        assert(common_at(x, y, x.len(), e));
        let i = choose|i: int| #[trigger] is_common(x, y, x.len(), e, i);
        lemma_key_index_is(y, x[i].0);
        let j = partner(x, y, i);
        assert(y[j].0 == x[i].0);
        assert(has_key(x, y[j].0));
        assert(has_key(s, y[j].0));
        let q = choose|q: int| 0 <= q < s.len() && (#[trigger] s[q]).0 == y[j].0;
        assert(common_at(y, x, y.len(), s[q]));
        let j2 = choose|j2: int| #[trigger] is_common(y, x, y.len(), s[q], j2);
        lemma_key_index(y, y[j].0, j);
        lemma_key_index(y, y[j].0, j2);
        assert(j2 == j);
        lemma_key_index(x, y[j].0, i);
        assert(glb(y[j].1, x[i].1) == Some(s[q].1));
        assert(commute(x[i].1, y[j].1));
        assert(s[q].1 == e.1);
        assert(s[q].0 == e.0);
        assert(s[q] == e);
    }
}

/// The greatest lower bound of two valid maps does not depend on their order, where the
/// bounds of their values do not.
proof fn lemma_glb_maps_commute(x: Seq<(Tree, Tree)>, y: Seq<(Tree, Tree)>)
    requires
        entries_wf(x),
        entries_wf(y),
        values_commute(x, y),
    ensures
        glb(Tree::Mapping(x), Tree::Mapping(y)) == glb(Tree::Mapping(y), Tree::Mapping(x)),
{
    assert(values_commute(y, x)) by {
        assert forall|j: int, i: int| 0 <= j < y.len() && 0 <= i < x.len() implies #[trigger] commute(
            y[j].1,
            x[i].1,
        ) by {
            assert(commute(x[i].1, y[j].1));
        }
    }
    if glb_entries(x, y, x.len()).is_some() {
        lemma_common_swap(x, y);
    }
    if glb_entries(y, x, y.len()).is_some() {
        lemma_common_swap(y, x);
    }
    if glb_entries(x, y, x.len()).is_some() {
        let r = glb_entries(x, y, x.len()).unwrap();
        let s = glb_entries(y, x, y.len()).unwrap();
        lemma_common_within(x, y);
        lemma_common_within(y, x);
        assert(Tree::Mapping(x).wf() && Tree::Mapping(y).wf());
        lemma_bounds_wf(Tree::Mapping(x), Tree::Mapping(y));
        lemma_bounds_wf(Tree::Mapping(y), Tree::Mapping(x));
        assert(Tree::Mapping(r).wf());
        assert(Tree::Mapping(s).wf());
        lemma_entries_equal(r, s);
    }
}

/// Each entry of the least upper bound of `x` and `y` is an entry of that of `y` and `x`.
proof fn lemma_joined_within(
    x: Seq<(Tree, Tree)>,
    y: Seq<(Tree, Tree)>,
    s1: Seq<(Tree, Tree)>,
    r1: Seq<(Tree, Tree)>,
    s2: Seq<(Tree, Tree)>,
    r2: Seq<(Tree, Tree)>,
)
    requires
        entries_wf(x),
        entries_wf(y),
        values_commute(x, y),
        lub_facts(x, y, s1, r1),
        lub_facts(y, x, s2, r2),
    ensures
        forall|k: int| 0 <= k < r1.len() ==> has_entry(r2, #[trigger] r1[k]),
{
    assert forall|k: int| 0 <= k < r1.len() implies has_entry(r2, #[trigger] r1[k]) by {
        let e = r1[k];
        if has_entry(s1, e) {
            let i = choose|i: int| 0 <= i < s1.len() && (#[trigger] s1[i]) == e;
            assert(s1[i] == joined(x, y, i));
            lemma_key_index_is(y, x[i].0);
            if key_index(y, x[i].0).is_some() {
                let j = partner(x, y, i);
                assert(y[j].0 == x[i].0);
                lemma_key_index(x, y[j].0, i);
                assert(s2[j] == joined(y, x, j));
                assert(commute(x[i].1, y[j].1));
                assert(s2[j] == e);
                assert(has_entry(r2, s2[j]));
            } else {
                assert(!has_key(y, x[i].0));
                assert(e == x[i]);
                assert(has_entry(r2, x[i]));
            }
        } else {
            assert(added(x, y, y.len(), e));
            let j = choose|j: int| #[trigger] is_added(x, y, y.len(), e, j);
            lemma_key_index_is(x, y[j].0);
            assert(key_index(x, y[j].0).is_none());
            assert(s2[j] == joined(y, x, j));
            assert(s2[j] == e);
            assert(has_entry(r2, s2[j]));
        }
    }
}

/// The least upper bound of two valid maps does not depend on their order, where the
/// bounds of their values do not.
proof fn lemma_lub_maps_commute(x: Seq<(Tree, Tree)>, y: Seq<(Tree, Tree)>)
    requires
        entries_wf(x),
        entries_wf(y),
        values_commute(x, y),
    ensures
        lub(Tree::Mapping(x), Tree::Mapping(y)) == lub(Tree::Mapping(y), Tree::Mapping(x)),
{
    assert(values_commute(y, x)) by {
        assert forall|j: int, i: int| 0 <= j < y.len() && 0 <= i < x.len() implies #[trigger] commute(
            y[j].1,
            x[i].1,
        ) by {
            assert(commute(x[i].1, y[j].1));
        }
    }
    if lub_entries(x, y, x.len()).is_some() {
        lemma_joined_swap(x, y);
    }
    if lub_entries(y, x, y.len()).is_some() {
        lemma_joined_swap(y, x);
    }
    if lub_entries(x, y, x.len()).is_some() {
        let s1 = lub_entries(x, y, x.len()).unwrap();
        let r1 = add_missing(s1, x, y, y.len());
        let s2 = lub_entries(y, x, y.len()).unwrap();
        let r2 = add_missing(s2, y, x, x.len());
        lemma_lub_facts(x, y);
        lemma_lub_facts(y, x);
        lemma_joined_within(x, y, s1, r1, s2, r2);
        lemma_joined_within(y, x, s2, r2, s1, r1);
        lemma_entries_equal(r1, r2);
    }
}

/// Where the joined entries of `x` and `y` exist, those of `y` and `x` exist.
proof fn lemma_joined_swap(x: Seq<(Tree, Tree)>, y: Seq<(Tree, Tree)>)
    requires
        entries_wf(x),
        entries_wf(y),
        values_commute(x, y),
        lub_entries(x, y, x.len()).is_some(),
    ensures
        lub_entries(y, x, y.len()).is_some(),
{
    lemma_lub_facts(x, y);
    assert forall|j: int|
        0 <= j < y.len() && key_index(x, (#[trigger] y[j]).0).is_some() implies lub(
        y[j].1,
        x[partner(y, x, j)].1,
    ).is_some() by {
        lemma_key_index_is(x, y[j].0);
        let i = partner(y, x, j);
        assert(x[i].0 == y[j].0);
        lemma_key_index(y, x[i].0, j);
        assert(key_index(y, x[i].0).is_some());
        assert(lub(x[i].1, y[j].1).is_some());
        assert(commute(x[i].1, y[j].1));
    }
    lemma_lub_entries_some(y, x, y.len());
}

/// The bounds of the first `n` items of two arrays do not depend on the order of the
/// arrays, where the bounds of their items do not.
proof fn lemma_items_commute(x: Seq<Tree>, y: Seq<Tree>, n: nat)
    requires
        forall|i: int| 0 <= i < x.len() && 0 <= i < y.len() ==> #[trigger] commute(x[i], y[i]),
    ensures
        glb_items(x, y, n) == glb_items(y, x, n),
        lub_items(x, y, n) == lub_items(y, x, n),
    decreases n,
{
    if n > 0 {
        lemma_items_commute(x, y, (n - 1) as nat);
        if n <= x.len() && n <= y.len() {
            assert(commute(x[n - 1], y[n - 1]));
        }
    }
}

/// The bounds of two valid values do not depend on the order of the two.
pub proof fn lemma_commute(a: Tree, b: Tree)
    requires
        a.wf(),
        b.wf(),
    ensures
        commute(a, b),
    decreases a,
{
    match (a, b) {
        (Tree::Float(x), Tree::Float(y)) => {
            lemma_wf_normal(a);
            lemma_wf_normal(b);
            if float_mle(x, y) && float_mle(y, x) {
                lemma_mle_antisymmetric(a, b);
            }
        },
        (Tree::Array(x), Tree::Array(y)) => {
            assert(a.wf() == (forall|j: int| 0 <= j < x.len() ==> (#[trigger] x[j]).wf()));
            assert(b.wf() == (forall|j: int| 0 <= j < y.len() ==> (#[trigger] y[j]).wf()));
            assert forall|i: int| 0 <= i < x.len() && 0 <= i < y.len() implies #[trigger] commute(
                x[i],
                y[i],
            ) by {
                lemma_commute(x[i], y[i]);
            }
            let lo = if x.len() <= y.len() {
                x.len()
            } else {
                y.len()
            };
            let hi = if x.len() <= y.len() {
                y.len()
            } else {
                x.len()
            };
            lemma_items_commute(x, y, lo);
            lemma_items_commute(x, y, hi);
        },
        (Tree::Mapping(x), Tree::Mapping(y)) => {
            assert(a.wf() == entries_wf(x));
            assert(b.wf() == entries_wf(y));
            assert forall|i: int, j: int|
                0 <= i < x.len() && 0 <= j < y.len() implies #[trigger] commute(
                x[i].1,
                y[j].1,
            ) by {
                lemma_commute(x[i].1, y[j].1);
            }
            lemma_glb_maps_commute(x, y);
            lemma_lub_maps_commute(x, y);
        },
        _ => {},
    }
}

/// The greatest lower bound of two values is that of the two in the other order.
pub proof fn law_glb_commutative(a: Value, b: Value)
    requires
        a.wf(),
        b.wf(),
    ensures
        glb(a@, b@) == glb(b@, a@),
{
    lemma_commute(a@, b@);
}

/// The least upper bound of two values is that of the two in the other order.
pub proof fn law_lub_commutative(a: Value, b: Value)
    requires
        a.wf(),
        b.wf(),
    ensures
        lub(a@, b@) == lub(b@, a@),
{
    lemma_commute(a@, b@);
}

} // verus!

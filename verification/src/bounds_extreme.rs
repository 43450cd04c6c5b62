//! The greatest lower bound is the greatest of the lower bounds, and the least upper bound
//! the least of the upper bounds; and taking bounds of three values gives the same in
//! either grouping.
use crate::bounds::{add_missing, glb, glb_entries, glb_items, lemma_bounds_wf, lub, lub_entries, lub_items};
use crate::bounds_laws::{
    added, common_at, has_entry, is_added, is_common, joined, lemma_glb, lemma_glb_entries,
    lemma_items_bounds, lemma_items_joins, lemma_key_index, lemma_key_index_is, lemma_lub,
    lemma_lub_facts, partner, value_joins,
};
use crate::meaningful::{entry_mle, mle};
use crate::meaningful_laws::{has_key, lemma_mle_antisymmetric, lemma_mle_transitive};
use crate::order::{entries_wf, key_index};
use crate::value::{Tree, Value};
use vstd::prelude::*;

verus! {

/// A value that is at most two values is at most their greatest lower bound.
pub proof fn lemma_glb_greatest(a: Tree, b: Tree, z: Tree)
    requires
        a.wf(),
        b.wf(),
        z.wf(),
        glb(a, b).is_some(),
        mle(z, a),
        mle(z, b),
    ensures
        mle(z, glb(a, b).unwrap()),
    decreases z,
{
    match (z, a, b) {
        (Tree::Array(zs), Tree::Array(x), Tree::Array(y)) => {
            assert(a.wf() == (forall|j: int| 0 <= j < x.len() ==> (#[trigger] x[j]).wf()));
            assert(b.wf() == (forall|j: int| 0 <= j < y.len() ==> (#[trigger] y[j]).wf()));
            assert(z.wf() == (forall|j: int| 0 <= j < zs.len() ==> (#[trigger] zs[j]).wf()));
            let lo: nat = if x.len() <= y.len() {
                x.len()
            } else {
                y.len()
            };
            let g = glb_items(x, y, lo).unwrap();
            lemma_items_bounds(x, y, lo);
            assert forall|i: int| 0 <= i < zs.len() implies mle(#[trigger] zs[i], g[i]) by {
                assert(mle(zs[i], x[i]));
                assert(mle(zs[i], y[i]));
                assert(glb(x[i], y[i]) == Some(g[i]));
                lemma_glb_greatest(x[i], y[i], zs[i]);
            }
            assert(mle(z, Tree::Array(g)) == (zs.len() <= g.len() && forall|i: int|
                0 <= i < zs.len() ==> mle(#[trigger] zs[i], g[i])));
        },
        (Tree::Mapping(zs), Tree::Mapping(x), Tree::Mapping(y)) => {
            assert(a.wf() == entries_wf(x));
            assert(b.wf() == entries_wf(y));
            assert(z.wf() == entries_wf(zs));
            let g = glb_entries(x, y, x.len()).unwrap();
            lemma_glb_entries(x, y, x.len());
            assert forall|k: int| 0 <= k < zs.len() implies entry_mle(#[trigger] zs[k], g) by {
                assert(entry_mle(zs[k], x));
                assert(entry_mle(zs[k], y));
                let i = choose|i: int|
                    0 <= i < x.len() && (#[trigger] x[i]).0 == zs[k].0 && mle(zs[k].1, x[i].1);
                let j = choose|j: int|
                    0 <= j < y.len() && (#[trigger] y[j]).0 == zs[k].0 && mle(zs[k].1, y[j].1);
                assert(y[j].0 == x[i].0);
                assert(has_key(y, x[i].0));
                lemma_key_index(y, x[i].0, j);
                assert(has_key(g, x[i].0));
                let q = choose|q: int| 0 <= q < g.len() && (#[trigger] g[q]).0 == x[i].0;
                assert(common_at(x, y, x.len(), g[q]));
                let i2 = choose|i2: int| #[trigger] is_common(x, y, x.len(), g[q], i2);
                lemma_key_index(x, x[i].0, i);
                lemma_key_index(x, x[i].0, i2);
                assert(i2 == i);
                assert(glb(x[i].1, y[j].1) == Some(g[q].1));
                lemma_glb_greatest(x[i].1, y[j].1, zs[k].1);
                assert(g[q].0 == zs[k].0 && mle(zs[k].1, g[q].1));
            }
            assert(mle(z, Tree::Mapping(g)) == (forall|k: int|
                0 <= k < zs.len() ==> entry_mle(#[trigger] zs[k], g)));
        },
        _ => {},
    }
}

/// The least upper bound of two values is at most every value that both are at most.
pub proof fn lemma_lub_least(a: Tree, b: Tree, z: Tree)
    requires
        a.wf(),
        b.wf(),
        z.wf(),
        lub(a, b).is_some(),
        mle(a, z),
        mle(b, z),
    ensures
        mle(lub(a, b).unwrap(), z),
    decreases a,
{
    match (a, b, z) {
        (Tree::Array(x), Tree::Array(y), Tree::Array(zs)) => {
            assert(a.wf() == (forall|j: int| 0 <= j < x.len() ==> (#[trigger] x[j]).wf()));
            assert(b.wf() == (forall|j: int| 0 <= j < y.len() ==> (#[trigger] y[j]).wf()));
            assert(z.wf() == (forall|j: int| 0 <= j < zs.len() ==> (#[trigger] zs[j]).wf()));
            let hi: nat = if x.len() <= y.len() {
                y.len()
            } else {
                x.len()
            };
            let u = lub_items(x, y, hi).unwrap();
            lemma_items_joins(x, y, hi);
            assert forall|i: int| 0 <= i < u.len() implies mle(#[trigger] u[i], zs[i]) by {
                let joined_item = u[i];
                if i < x.len() && i < y.len() {
                    assert(mle(x[i], zs[i]));
                    assert(mle(y[i], zs[i]));
                    assert(lub(x[i], y[i]) == Some(joined_item));
                    lemma_lub_least(x[i], y[i], zs[i]);
                } else if i < x.len() {
                    assert(mle(x[i], zs[i]));
                } else {
                    assert(mle(y[i], zs[i]));
                }
            }
            assert(mle(Tree::Array(u), z) == (u.len() <= zs.len() && forall|i: int|
                0 <= i < u.len() ==> mle(#[trigger] u[i], zs[i])));
        },
        (Tree::Mapping(x), Tree::Mapping(y), Tree::Mapping(zs)) => {
            assert(a.wf() == entries_wf(x));
            assert(b.wf() == entries_wf(y));
            assert(z.wf() == entries_wf(zs));
            let s = lub_entries(x, y, x.len()).unwrap();
            let r = add_missing(s, x, y, y.len());
            lemma_lub_facts(x, y);
            assert forall|k: int| 0 <= k < r.len() implies entry_mle(#[trigger] r[k], zs) by {
                let e = r[k];
                if has_entry(s, e) {
                    let i = choose|i: int| 0 <= i < s.len() && (#[trigger] s[i]) == e;
                    assert(s[i] == joined(x, y, i));
                    assert(entry_mle(x[i], zs));
                    lemma_key_index_is(y, x[i].0);
                    if key_index(y, x[i].0).is_some() {
                        let j = partner(x, y, i);
                        assert(entry_mle(y[j], zs));
                        let q = choose|q: int|
                            0 <= q < zs.len() && (#[trigger] zs[q]).0 == x[i].0 && mle(
                                x[i].1,
                                zs[q].1,
                            );
                        let q2 = choose|q2: int|
                            0 <= q2 < zs.len() && (#[trigger] zs[q2]).0 == y[j].0 && mle(
                                y[j].1,
                                zs[q2].1,
                            );
                        lemma_key_index(zs, x[i].0, q);
                        lemma_key_index(zs, x[i].0, q2);
                        assert(q2 == q);
                        lemma_lub_least(x[i].1, y[j].1, zs[q].1);
                        assert(zs[q].0 == e.0 && mle(e.1, zs[q].1));
                    }
                } else {
                    assert(added(x, y, y.len(), e));
                    let j = choose|j: int| #[trigger] is_added(x, y, y.len(), e, j);
                    assert(entry_mle(y[j], zs));
                }
            }
            assert(mle(Tree::Mapping(r), z) == (forall|k: int|
                0 <= k < r.len() ==> entry_mle(#[trigger] r[k], zs)));
        },
        _ => {},
    }
}

/// The greatest lower bound of two values is the greatest value that is at most both: every
/// value that is at most both is at most it.
pub proof fn law_glb_is_greatest(a: Value, b: Value, z: Value)
    requires
        a.wf(),
        b.wf(),
        z.wf(),
        glb(a@, b@).is_some(),
        mle(z@, a@),
        mle(z@, b@),
    ensures
        mle(z@, glb(a@, b@).unwrap()),
{
    lemma_glb_greatest(a@, b@, z@);
}

/// The least upper bound of two values is the least value that both are at most: it is at
/// most every value that both are at most.
pub proof fn law_lub_is_least(a: Value, b: Value, z: Value)
    requires
        a.wf(),
        b.wf(),
        z.wf(),
        lub(a@, b@).is_some(),
        mle(a@, z@),
        mle(b@, z@),
    ensures
        mle(lub(a@, b@).unwrap(), z@),
{
    lemma_lub_least(a@, b@, z@);
}

/// The greatest lower bound of three values does not depend on which two are taken first,
/// where each of the bounds taken on the way exists.
pub proof fn law_glb_associative(a: Value, b: Value, c: Value)
    requires
        a.wf(),
        b.wf(),
        c.wf(),
        glb(a@, b@).is_some(),
        glb(b@, c@).is_some(),
        glb(glb(a@, b@).unwrap(), c@).is_some(),
        glb(a@, glb(b@, c@).unwrap()).is_some(),
    ensures
        glb(glb(a@, b@).unwrap(), c@) == glb(a@, glb(b@, c@).unwrap()),
{
    let x = glb(a@, b@).unwrap();
    let y = glb(b@, c@).unwrap();
    lemma_bounds_wf(a@, b@);
    lemma_bounds_wf(b@, c@);
    let l = glb(x, c@).unwrap();
    let r = glb(a@, y).unwrap();
    lemma_bounds_wf(x, c@);
    lemma_bounds_wf(a@, y);
    lemma_glb(a@, b@);
    lemma_glb(b@, c@);
    lemma_glb(x, c@);
    lemma_glb(a@, y);
    lemma_mle_transitive(l, x, a@);
    lemma_mle_transitive(l, x, b@);
    lemma_glb_greatest(b@, c@, l);
    lemma_glb_greatest(a@, y, l);
    lemma_mle_transitive(r, y, b@);
    lemma_mle_transitive(r, y, c@);
    lemma_glb_greatest(a@, b@, r);
    lemma_glb_greatest(x, c@, r);
    lemma_mle_antisymmetric(l, r);
}

/// The least upper bound of three values does not depend on which two are taken first,
/// where each of the bounds taken on the way exists.
pub proof fn law_lub_associative(a: Value, b: Value, c: Value)
    requires
        a.wf(),
        b.wf(),
        c.wf(),
        lub(a@, b@).is_some(),
        lub(b@, c@).is_some(),
        lub(lub(a@, b@).unwrap(), c@).is_some(),
        lub(a@, lub(b@, c@).unwrap()).is_some(),
    ensures
        lub(lub(a@, b@).unwrap(), c@) == lub(a@, lub(b@, c@).unwrap()),
{
    let x = lub(a@, b@).unwrap();
    let y = lub(b@, c@).unwrap();
    lemma_bounds_wf(a@, b@);
    lemma_bounds_wf(b@, c@);
    let l = lub(x, c@).unwrap();
    let r = lub(a@, y).unwrap();
    lemma_bounds_wf(x, c@);
    lemma_bounds_wf(a@, y);
    lemma_lub(a@, b@);
    lemma_lub(b@, c@);
    lemma_lub(x, c@);
    lemma_lub(a@, y);
    assert(value_joins(a@, b@) && value_joins(b@, c@) && value_joins(x, c@) && value_joins(a@, y));
    lemma_mle_transitive(a@, x, l);
    lemma_mle_transitive(b@, x, l);
    lemma_lub_least(b@, c@, l);
    lemma_lub_least(a@, y, l);
    lemma_mle_transitive(b@, y, r);
    lemma_mle_transitive(c@, y, r);
    lemma_lub_least(a@, b@, r);
    lemma_lub_least(x, c@, r);
    lemma_mle_antisymmetric(l, r);
}

} // verus!

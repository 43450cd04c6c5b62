//! What holds of the meaningful partial order: it is a partial order, and it agrees with the
//! total order.
use crate::meaningful::{entry_mle, float_mle, meaningful_order, mle};
use crate::order::{
    array_order, entries_order, entries_wf, entry_order, key_below, keys_ascend, order, Order,
};
use crate::order_laws::{lemma_order_equal, lemma_order_flip};
use crate::value::{Tree, Value, NAN_BITS, SIGN_BIT};
use vstd::prelude::*;

verus! {

/// A valid value holds its floats by their normal bits.
pub proof fn lemma_wf_normal(t: Tree)
    requires
        t.wf(),
    ensures
        t.normal(),
    decreases t,
{
    match t {
        Tree::Array(xs) => {
            assert(t.wf() == (forall|j: int| 0 <= j < xs.len() ==> (#[trigger] xs[j]).wf()));
            assert forall|i: int| 0 <= i < xs.len() implies (#[trigger] xs[i]).normal() by {
                assert(xs[i].wf());
                lemma_wf_normal(xs[i]);
            }
        },
        Tree::Mapping(es) => {
            assert(t.wf() == entries_wf(es));
            assert forall|i: int| 0 <= i < es.len() implies (#[trigger] es[i]).0.normal()
                && es[i].1.normal() by {
                assert(es[i].0.wf() && es[i].1.wf());
                lemma_wf_normal(es[i].0);
                lemma_wf_normal(es[i].1);
            }
        },
        _ => {},
    }
}

/// Every value is at most itself.
pub proof fn lemma_mle_reflexive(a: Tree)
    ensures
        mle(a, a),
    decreases a,
{
    match a {
        Tree::Array(xs) => {
            assert forall|i: int| 0 <= i < xs.len() implies mle(#[trigger] xs[i], xs[i]) by {
                lemma_mle_reflexive(xs[i]);
            }
        },
        Tree::Mapping(es) => {
            assert forall|i: int| 0 <= i < es.len() implies entry_mle(#[trigger] es[i], es) by {
                lemma_mle_reflexive(es[i].1);
                assert(es[i].0 == es[i].0 && mle(es[i].1, es[i].1));
            }
        },
        _ => {},
    }
}

/// Whether `a` is at most `b` and `b` at most `c`, for floats, makes `a` at most `c`.
pub proof fn lemma_float_mle_transitive(a: u64, b: u64, c: u64)
    requires
        float_mle(a, b),
        float_mle(b, c),
    ensures
        float_mle(a, c),
{
}

/// The meaningful partial order is transitive.
pub proof fn lemma_mle_transitive(a: Tree, b: Tree, c: Tree)
    requires
        mle(a, b),
        mle(b, c),
    ensures
        mle(a, c),
    decreases a,
{
    match (a, b, c) {
        (Tree::Float(x), Tree::Float(y), Tree::Float(z)) => {
            lemma_float_mle_transitive(x, y, z);
        },
        (Tree::Array(x), Tree::Array(y), Tree::Array(z)) => {
            assert forall|i: int| 0 <= i < x.len() implies mle(#[trigger] x[i], z[i]) by {
                assert(mle(x[i], y[i]));
                assert(mle(y[i], z[i]));
                lemma_mle_transitive(x[i], y[i], z[i]);
            }
        },
        (Tree::Mapping(x), Tree::Mapping(y), Tree::Mapping(z)) => {
            assert forall|i: int| 0 <= i < x.len() implies entry_mle(#[trigger] x[i], z) by {
                assert(entry_mle(x[i], y));
                let j = choose|j: int|
                    0 <= j < y.len() && (#[trigger] y[j]).0 == x[i].0 && mle(x[i].1, y[j].1);
                assert(entry_mle(y[j], z));
                let k = choose|k: int|
                    0 <= k < z.len() && (#[trigger] z[k]).0 == y[j].0 && mle(y[j].1, z[k].1);
                lemma_mle_transitive(x[i].1, y[j].1, z[k].1);
                assert(z[k].0 == x[i].0 && mle(x[i].1, z[k].1));
            }
        },
        _ => {},
    }
}

/// Every key of `x` is a key of `y`.
pub open spec fn keys_within(x: Seq<(Tree, Tree)>, y: Seq<(Tree, Tree)>) -> bool {
    forall|i: int| 0 <= i < x.len() ==> has_key(y, (#[trigger] x[i]).0)
}

/// `key` is a key of `y`.
pub open spec fn has_key(y: Seq<(Tree, Tree)>, key: Tree) -> bool {
    exists|j: int| 0 <= j < y.len() && (#[trigger] y[j]).0 == key
}

/// In entries whose keys ascend, the entry with the greater key stands later.
pub proof fn lemma_later(y: Seq<(Tree, Tree)>, p: int, q: int)
    requires
        keys_ascend(y),
        0 <= p < y.len(),
        0 <= q < y.len(),
        order(y[p].0, y[q].0) == Order::Less,
    ensures
        p < q,
{
    lemma_order_flip(y[p].0, y[q].0);
    if q < p {
        assert(key_below(y, q, p));
    }
}

/// Where the keys of `x` and of `y` ascend and every key of `x` is a key of `y`, the key of
/// the entry `i` of `x` stands in `y` at `i` or later.
pub proof fn lemma_embed_lower(x: Seq<(Tree, Tree)>, y: Seq<(Tree, Tree)>, i: int, q: int)
    requires
        keys_ascend(x),
        keys_ascend(y),
        keys_within(x, y),
        0 <= i < x.len(),
        0 <= q < y.len(),
        y[q].0 == x[i].0,
    ensures
        i <= q,
    decreases i,
{
    if i > 0 {
        assert(has_key(y, x[i - 1].0));
        let p = choose|p: int| 0 <= p < y.len() && (#[trigger] y[p]).0 == x[i - 1].0;
        lemma_embed_lower(x, y, i - 1, p);
        assert(key_below(x, i - 1, i));
        lemma_later(y, p, q);
    }
}

/// Where moreover `x` has as many entries as `y`, that key stands in `y` at `i`.
pub proof fn lemma_embed_upper(x: Seq<(Tree, Tree)>, y: Seq<(Tree, Tree)>, i: int, q: int)
    requires
        keys_ascend(x),
        keys_ascend(y),
        keys_within(x, y),
        x.len() == y.len(),
        0 <= i < x.len(),
        0 <= q < y.len(),
        y[q].0 == x[i].0,
    ensures
        q <= i,
    decreases x.len() - i,
{
    if i < x.len() - 1 {
        assert(has_key(y, x[i + 1].0));
        let p = choose|p: int| 0 <= p < y.len() && (#[trigger] y[p]).0 == x[i + 1].0;
        lemma_embed_upper(x, y, i + 1, p);
        assert(key_below(x, i, i + 1));
        lemma_later(y, q, p);
    }
}

/// A map that is at most another has its keys among the other's.
pub proof fn lemma_mle_keys(x: Seq<(Tree, Tree)>, y: Seq<(Tree, Tree)>)
    requires
        mle(Tree::Mapping(x), Tree::Mapping(y)),
    ensures
        keys_within(x, y),
{
    let a = Tree::Mapping(x);
    let b = Tree::Mapping(y);
    assert(mle(a, b));
    match (a, b) {
        (Tree::Mapping(x2), Tree::Mapping(y2)) => {
            assert(x2 == x && y2 == y);
            assert forall|i: int| 0 <= i < x2.len() implies has_key(y2, (#[trigger] x2[i]).0) by {
                assert(entry_mle(x2[i], y2));
                let j = choose|j: int|
                    0 <= j < y2.len() && (#[trigger] y2[j]).0 == x2[i].0 && mle(
                        x2[i].1,
                        y2[j].1,
                    );
                assert(y2[j].0 == x2[i].0);
            }
        },
        _ => {},
    }
}

/// Where every key of `x` is a key of `y` and the keys of both ascend, `x` has no more
/// entries than `y`.
pub proof fn lemma_embed_len(x: Seq<(Tree, Tree)>, y: Seq<(Tree, Tree)>)
    requires
        keys_ascend(x),
        keys_ascend(y),
        keys_within(x, y),
    ensures
        x.len() <= y.len(),
{
    if x.len() > 0 {
        let i = x.len() - 1;
        assert(has_key(y, x[i].0));
        let q = choose|q: int| 0 <= q < y.len() && (#[trigger] y[q]).0 == x[i].0;
        lemma_embed_lower(x, y, i, q);
    }
}

/// The meaningful partial order is antisymmetric on valid values.
pub proof fn lemma_mle_antisymmetric(a: Tree, b: Tree)
    requires
        a.wf(),
        b.wf(),
        mle(a, b),
        mle(b, a),
    ensures
        a == b,
    decreases a,
{
    match (a, b) {
        (Tree::Float(x), Tree::Float(y)) => {
            assert(NAN_BITS % SIGN_BIT == 0x7FFF_FFFF_FFFF_FFFFu64);
        },
        (Tree::Array(x), Tree::Array(y)) => {
            assert(a.wf() == (forall|j: int| 0 <= j < x.len() ==> (#[trigger] x[j]).wf()));
            assert(b.wf() == (forall|j: int| 0 <= j < y.len() ==> (#[trigger] y[j]).wf()));
            assert forall|i: int| 0 <= i < x.len() implies x[i] == y[i] by {
                assert(mle(x[i], y[i]));
                assert(mle(y[i], x[i]));
                assert(x[i].wf() && y[i].wf());
                lemma_mle_antisymmetric(x[i], y[i]);
            }
            assert(x =~= y);
        },
        (Tree::Mapping(x), Tree::Mapping(y)) => {
            assert(a.wf() == entries_wf(x));
            assert(b.wf() == entries_wf(y));
            lemma_mle_keys(x, y);
            lemma_mle_keys(y, x);
            lemma_embed_len(x, y);
            lemma_embed_len(y, x);
            assert forall|i: int| 0 <= i < x.len() implies x[i] == y[i] by {
                assert(entry_mle(x[i], y));
                let j = choose|j: int|
                    0 <= j < y.len() && (#[trigger] y[j]).0 == x[i].0 && mle(x[i].1, y[j].1);
                lemma_embed_lower(x, y, i, j);
                lemma_embed_upper(x, y, i, j);
                assert(entry_mle(y[i], x));
                let k = choose|k: int|
                    0 <= k < x.len() && (#[trigger] x[k]).0 == y[i].0 && mle(y[i].1, x[k].1);
                lemma_embed_lower(y, x, i, k);
                lemma_embed_upper(y, x, i, k);
                assert(x[i].0.wf() && x[i].1.wf() && y[i].0.wf() && y[i].1.wf());
                lemma_mle_antisymmetric(x[i].1, y[i].1);
            }
            assert(x =~= y);
        },
        _ => {},
    }
}

/// A value that is at most another in the meaningful partial order is at most it in the
/// total order.
pub proof fn lemma_mle_le(a: Tree, b: Tree)
    requires
        a.wf(),
        b.wf(),
        mle(a, b),
    ensures
        order(a, b) != Order::Greater,
    decreases a, 0nat, 0int,
{
    match (a, b) {
        (Tree::Float(x), Tree::Float(y)) => {},
        (Tree::Array(x), Tree::Array(y)) => {
            assert(a.wf() == (forall|j: int| 0 <= j < x.len() ==> (#[trigger] x[j]).wf()));
            assert(b.wf() == (forall|j: int| 0 <= j < y.len() ==> (#[trigger] y[j]).wf()));
            lemma_mle_le_items(x, y, 0);
        },
        (Tree::Mapping(x), Tree::Mapping(y)) => {
            assert(a.wf() == entries_wf(x));
            assert(b.wf() == entries_wf(y));
            lemma_mle_keys(x, y);
            lemma_embed_len(x, y);
            lemma_mle_le_entries(x, y, 0);
        },
        _ => {},
    }
}

proof fn lemma_mle_le_items(x: Seq<Tree>, y: Seq<Tree>, i: int)
    requires
        0 <= i,
        x.len() <= y.len(),
        forall|j: int| 0 <= j < x.len() ==> (#[trigger] x[j]).wf(),
        forall|j: int| 0 <= j < y.len() ==> (#[trigger] y[j]).wf(),
        forall|j: int| 0 <= j < x.len() ==> mle(#[trigger] x[j], y[j]),
    ensures
        array_order(x, y, i) != Order::Greater,
    decreases x, 1nat, x.len() - i,
{
    if i < x.len() {
        assert(mle(x[i], y[i]));
        assert(x[i].wf() && y[i].wf());
        lemma_mle_le(x[i], y[i]);
        lemma_mle_le_items(x, y, i + 1);
    }
}

proof fn lemma_mle_le_entries(x: Seq<(Tree, Tree)>, y: Seq<(Tree, Tree)>, i: int)
    requires
        0 <= i,
        entries_wf(x),
        entries_wf(y),
        keys_within(x, y),
        x.len() <= y.len(),
        forall|j: int| 0 <= j < x.len() ==> entry_mle(#[trigger] x[j], y),
    ensures
        entries_order(x, y, i) != Order::Greater,
    decreases x, 1nat, x.len() - i,
{
    if i < x.len() {
        assert(entry_mle(x[i], y));
        let q = choose|q: int|
            0 <= q < y.len() && (#[trigger] y[q]).0 == x[i].0 && mle(x[i].1, y[q].1);
        lemma_embed_lower(x, y, i, q);
        assert(x[i].0.wf() && x[i].1.wf() && y[i].0.wf() && y[i].1.wf());
        lemma_order_flip(x[i].0, y[i].0);
        if q == i {
            lemma_order_flip(x[i].0, x[i].0);
            lemma_mle_le(x[i].1, y[i].1);
            assert(entry_order(x[i], y[i]) == order(x[i].1, y[i].1));
            lemma_mle_le_entries(x, y, i + 1);
        } else {
            assert(key_below(y, i, q));
            assert(entry_order(x[i], y[i]) == Order::Less);
        }
    }
}

/// The meaningful partial order is reflexive.
pub proof fn law_meaningful_reflexive(a: Value)
    ensures
        mle(a@, a@),
        meaningful_order(a@, a@) == Some(Order::Equal),
{
    lemma_mle_reflexive(a@);
}

/// The meaningful partial order is antisymmetric: values that are at most each other are
/// equal.
pub proof fn law_meaningful_antisymmetric(a: Value, b: Value)
    requires
        a.wf(),
        b.wf(),
        mle(a@, b@),
        mle(b@, a@),
    ensures
        a@ == b@,
{
    lemma_mle_antisymmetric(a@, b@);
}

/// The meaningful partial order is transitive.
pub proof fn law_meaningful_transitive(a: Value, b: Value, c: Value)
    requires
        mle(a@, b@),
        mle(b@, c@),
    ensures
        mle(a@, c@),
{
    lemma_mle_transitive(a@, b@, c@);
}

/// Where the comparison gives no outcome, neither value is at most the other; where it
/// gives one, the outcome says which is.
pub proof fn law_meaningful_outcome(a: Value, b: Value)
    requires
        a.wf(),
        b.wf(),
    ensures
        meaningful_order(a@, b@).is_none() ==> !mle(a@, b@) && !mle(b@, a@) && a@ != b@,
        meaningful_order(a@, b@) == Some(Order::Less) ==> mle(a@, b@) && !mle(b@, a@) && a@ != b@,
        meaningful_order(a@, b@) == Some(Order::Equal) ==> mle(a@, b@) && mle(b@, a@) && a@ == b@,
        meaningful_order(a@, b@) == Some(Order::Greater) ==> !mle(a@, b@) && mle(b@, a@) && a@
            != b@,
{
    lemma_mle_reflexive(a@);
    if mle(a@, b@) && mle(b@, a@) {
        lemma_mle_antisymmetric(a@, b@);
    }
}

/// A value that is below another in the meaningful partial order is below it in the total
/// order, and one that is above it is above it there.
pub proof fn law_meaningful_agrees(a: Value, b: Value)
    requires
        a.wf(),
        b.wf(),
    ensures
        meaningful_order(a@, b@) == Some(Order::Less) ==> order(a@, b@) == Order::Less,
        meaningful_order(a@, b@) == Some(Order::Greater) ==> order(a@, b@) == Order::Greater,
        meaningful_order(a@, b@) == Some(Order::Equal) ==> order(a@, b@) == Order::Equal,
{
    lemma_wf_normal(a@);
    lemma_wf_normal(b@);
    lemma_order_equal(a@, b@);
    lemma_order_flip(a@, b@);
    lemma_mle_reflexive(a@);
    if mle(a@, b@) {
        lemma_mle_le(a@, b@);
    }
    if mle(b@, a@) {
        lemma_mle_le(b@, a@);
    }
    if mle(a@, b@) && mle(b@, a@) {
        lemma_mle_antisymmetric(a@, b@);
    }
}

} // verus!

//! The entries of a map: kept in ascending order of their keys.
use crate::order::{entries_wf, key_below, keys_ascend, order, Order};
use crate::order_laws::{lemma_order_composes, lemma_order_flip};
use crate::value::{tree_entries, Tree, Value};
use vstd::prelude::*;

verus! {

/// The first index at or after `i` whose key is not below `key`, or the number of entries.
pub open spec fn lower_bound(es: Seq<(Tree, Tree)>, key: Tree, i: int) -> int
    decreases es.len() - i,
{
    if 0 <= i < es.len() && order(es[i].0, key) == Order::Less {
        lower_bound(es, key, i + 1)
    } else {
        i
    }
}

/// The entries with `key` bound to `value`: in place of the entry that had the key, if there
/// was one, and else at the key's place in the order.
pub open spec fn insert(es: Seq<(Tree, Tree)>, key: Tree, value: Tree) -> Seq<(Tree, Tree)> {
    let p = lower_bound(es, key, 0);
    if p < es.len() && order(es[p].0, key) == Order::Equal {
        es.update(p, (key, value))
    } else {
        es.insert(p, (key, value))
    }
}

/// Every entry below the lower bound has a key below `key`, and the entry at it has not.
pub proof fn lemma_lower_bound(es: Seq<(Tree, Tree)>, key: Tree, i: int)
    requires
        0 <= i <= es.len(),
    ensures
        i <= lower_bound(es, key, i) <= es.len(),
        forall|j: int|
            i <= j < lower_bound(es, key, i) ==> order((#[trigger] es[j]).0, key) == Order::Less,
        lower_bound(es, key, i) < es.len() ==> order(es[lower_bound(es, key, i)].0, key)
            != Order::Less,
    decreases es.len() - i,
{
    if i < es.len() && order(es[i].0, key) == Order::Less {
        lemma_lower_bound(es, key, i + 1);
    }
}

/// Binding a valid key to a valid value in the entries of a valid map gives such entries.
pub proof fn lemma_insert_wf(es: Seq<(Tree, Tree)>, key: Tree, value: Tree)
    requires
        entries_wf(es),
        key.wf(),
        value.wf(),
    ensures
        entries_wf(insert(es, key, value)),
{
    let p = lower_bound(es, key, 0);
    let r = insert(es, key, value);
    lemma_lower_bound(es, key, 0);
    if p < es.len() && order(es[p].0, key) == Order::Equal {
        assert forall|i: int, j: int| 0 <= i < j < r.len() implies #[trigger] key_below(
            r,
            i,
            j,
        ) by {
            assert(key_below(es, i, j));
            if i == p {
                lemma_order_flip(es[p].0, key);
                lemma_order_composes(key, es[p].0, es[j].0);
            } else if j == p {
                lemma_order_composes(es[i].0, es[p].0, key);
            }
        }
        assert forall|i: int| 0 <= i < r.len() implies (#[trigger] r[i]).0.wf() && r[i].1.wf() by {
            if i != p {
                assert(r[i] == es[i]);
                assert(es[i].0.wf());
            }
        }
    } else {
        assert forall|i: int, j: int| 0 <= i < j < r.len() implies #[trigger] key_below(
            r,
            i,
            j,
        ) by {
            lemma_insert_pair(es, key, value, p, i, j);
        }
        assert forall|i: int| 0 <= i < r.len() implies (#[trigger] r[i]).0.wf() && r[i].1.wf() by {
            if i < p {
                assert(r[i] == es[i]);
                assert(es[i].0.wf());
            } else if i > p {
                assert(r[i] == es[i - 1]);
                assert(es[i - 1].0.wf());
            }
        }
    }
}

proof fn lemma_insert_pair(
    es: Seq<(Tree, Tree)>,
    key: Tree,
    value: Tree,
    p: int,
    i: int,
    j: int,
)
    requires
        keys_ascend(es),
        0 <= p <= es.len(),
        forall|k: int| 0 <= k < p ==> order((#[trigger] es[k]).0, key) == Order::Less,
        p < es.len() ==> order(es[p].0, key) == Order::Greater,
        0 <= i < j <= es.len(),
    ensures
        key_below(es.insert(p, (key, value)), i, j),
{
    let r = es.insert(p, (key, value));
    if j < p {
        assert(r[i] == es[i] && r[j] == es[j]);
        assert(key_below(es, i, j));
    } else if j == p {
        assert(r[i] == es[i]);
        assert(r[j] == (key, value));
    } else if i == p {
        assert(r[j] == es[j - 1]);
        assert(r[i] == (key, value));
        lemma_order_flip(es[p].0, key);
        if j - 1 > p {
            assert(key_below(es, p, j - 1));
            lemma_order_composes(key, es[p].0, es[j - 1].0);
        }
    } else if i < p {
        assert(r[i] == es[i] && r[j] == es[j - 1]);
        assert(key_below(es, i, j - 1));
    } else {
        assert(r[i] == es[i - 1] && r[j] == es[j - 1]);
        assert(key_below(es, i - 1, j - 1));
    }
}

/// Binds `key` to `value` in the entries of a map: the value takes the place of the one that
/// the key had, if it had one.
pub fn insert_entry(es: &mut Vec<(Value, Value)>, key: Value, value: Value)
    ensures
        tree_entries(final(es)@) == insert(tree_entries(old(es)@), key@, value@),
{
    let ghost t = tree_entries(es@);
    let mut p: usize = 0;
    let mut found = false;
    let mut done = false;
    while !done && p < es.len()
        invariant
            0 <= p <= es.len(),
            es@ == old(es)@,
            t == tree_entries(es@),
            lower_bound(t, key@, 0) == lower_bound(t, key@, p as int),
            !done ==> !found,
            done ==> p < es.len() && order(t[p as int].0, key@) != Order::Less && found == (order(
                t[p as int].0,
                key@,
            ) == Order::Equal),
        decreases es.len() - p + (if done { 0int } else { 1int }),
    {
        assert(t[p as int].0 == es@[p as int].0@);
        match es[p].0.total_order(&key) {
            Order::Less => {
                p = p + 1;
            },
            Order::Equal => {
                found = true;
                done = true;
            },
            Order::Greater => {
                done = true;
            },
        }
    }
    assert(lower_bound(t, key@, 0) == p);
    if found {
        es.set(p, (key, value));
        assert(tree_entries(es@) =~= t.update(p as int, (key@, value@)));
    } else {
        es.insert(p, (key, value));
        assert(tree_entries(es@) =~= t.insert(p as int, (key@, value@)));
    }
}


} // verus!

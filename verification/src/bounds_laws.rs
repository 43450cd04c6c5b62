//! What holds of the bounds in the meaningful partial order: they are bounds, and a bound
//! of two values is one of them exactly where the two are comparable.
use crate::bounds::{
    add_missing, glb, glb_entries, glb_items, lemma_bounds_wf, lub, lub_entries, lub_items,
};
use crate::entries::{insert, lemma_insert_wf, lemma_lower_bound, lower_bound};
use crate::order::order;
use crate::order_laws::lemma_order_equal;
use crate::meaningful_laws::lemma_wf_normal;
use crate::meaningful::{entry_mle, meaningful_order, mle};
use crate::meaningful_laws::{
    has_key, keys_within, lemma_embed_len, lemma_embed_lower, lemma_embed_upper,
    lemma_mle_reflexive,
};
use crate::order::{entries_wf, is_key_index, key_index, keys_ascend, lemma_key_unique};
use crate::value::{Tree, Value, NAN_BITS, SIGN_BIT};
use vstd::prelude::*;

verus! {

/// In entries whose keys ascend, the index of a key is the index of the entry that has it.
pub proof fn lemma_key_index(y: Seq<(Tree, Tree)>, key: Tree, j: int)
    requires
        keys_ascend(y),
        0 <= j < y.len(),
        y[j].0 == key,
    ensures
        key_index(y, key) == Some(j),
{
    assert forall|k: int| 0 <= k < j implies (#[trigger] y[k]).0 != key by {
        if y[k].0 == key {
            lemma_key_unique(y, k, j);
        }
    }
    assert(is_key_index(y, key, j));
    let c = choose|c: int| is_key_index(y, key, c);
    lemma_key_unique(y, c, j);
}

/// A key without an index is the key of no entry; a key with an index is the key of the
/// entry at the index.
pub proof fn lemma_key_index_is(y: Seq<(Tree, Tree)>, key: Tree)
    requires
        keys_ascend(y),
    ensures
        key_index(y, key).is_none() ==> !has_key(y, key),
        key_index(y, key).is_some() ==> 0 <= key_index(y, key).unwrap() < y.len() && y[key_index(
            y,
            key,
        ).unwrap()].0 == key,
{
    if key_index(y, key).is_none() {
        if has_key(y, key) {
            let j = choose|j: int| 0 <= j < y.len() && (#[trigger] y[j]).0 == key;
            lemma_key_index(y, key, j);
        }
    } else {
        let c = choose|c: int| is_key_index(y, key, c);
        assert(is_key_index(y, key, c));
    }
}

/// Entries of two valid maps with the same keys have the same keys at the same indices.
pub proof fn lemma_same_keys(x: Seq<(Tree, Tree)>, y: Seq<(Tree, Tree)>)
    requires
        keys_ascend(x),
        keys_ascend(y),
        keys_within(x, y),
        keys_within(y, x),
    ensures
        x.len() == y.len(),
        forall|i: int| 0 <= i < x.len() ==> (#[trigger] x[i]).0 == y[i].0,
{
    lemma_embed_len(x, y);
    lemma_embed_len(y, x);
    assert forall|i: int| 0 <= i < x.len() implies (#[trigger] x[i]).0 == y[i].0 by {
        assert(has_key(y, x[i].0));
        let q = choose|q: int| 0 <= q < y.len() && (#[trigger] y[q]).0 == x[i].0;
        lemma_embed_lower(x, y, i, q);
        lemma_embed_upper(x, y, i, q);
    }
}

/// The greatest lower bounds of the first `n` items of two arrays are the bounds of the
/// items, index by index.
pub proof fn lemma_items_bounds(x: Seq<Tree>, y: Seq<Tree>, n: nat)
    requires
        n <= x.len(),
        n <= y.len(),
        glb_items(x, y, n).is_some(),
    ensures
        glb_items(x, y, n).unwrap().len() == n,
        forall|i: int|
            0 <= i < n ==> glb(x[i], y[i]) == Some(#[trigger] glb_items(x, y, n).unwrap()[i]),
    decreases n,
{
    if n > 0 {
        lemma_items_bounds(x, y, (n - 1) as nat);
    }
}

/// Where each pair of items has a greatest lower bound, the arrays have them all.
pub proof fn lemma_items_some(x: Seq<Tree>, y: Seq<Tree>, n: nat)
    requires
        n <= x.len(),
        n <= y.len(),
        forall|i: int| 0 <= i < n ==> (#[trigger] glb(x[i], y[i])).is_some(),
    ensures
        glb_items(x, y, n).is_some(),
    decreases n,
{
    if n > 0 {
        lemma_items_some(x, y, (n - 1) as nat);
        assert(glb(x[n - 1], y[n - 1]).is_some());
    }
}

/// What the common entries of two valid maps are (see `glb_entries`): each has a key of
/// both maps and the bound of the two values; and each key of both maps is the key of one.
pub proof fn lemma_glb_entries(x: Seq<(Tree, Tree)>, y: Seq<(Tree, Tree)>, n: nat)
    requires
        keys_ascend(x),
        keys_ascend(y),
        n <= x.len(),
        glb_entries(x, y, n).is_some(),
    ensures
        forall|k: int|
            0 <= k < glb_entries(x, y, n).unwrap().len() ==> common_at(
                x,
                y,
                n,
                #[trigger] glb_entries(x, y, n).unwrap()[k],
            ),
        forall|i: int|
            0 <= i < n && has_key(y, (#[trigger] x[i]).0) ==> has_key(
                glb_entries(x, y, n).unwrap(),
                x[i].0,
            ) && glb(x[i].1, y[key_index(y, x[i].0).unwrap()].1).is_some(),
    decreases n,
{
    if n > 0 {
        let before = glb_entries(x, y, (n - 1) as nat).unwrap();
        let s = glb_entries(x, y, n).unwrap();
        lemma_glb_entries(x, y, (n - 1) as nat);
        lemma_key_index_is(y, x[n - 1].0);
        let ki = key_index(y, x[n - 1].0);
        assert forall|k: int| 0 <= k < s.len() implies common_at(x, y, n, #[trigger] s[k]) by {
            if k < before.len() {
                assert(s[k] == before[k]);
                assert(common_at(x, y, (n - 1) as nat, before[k]));
                let i = choose|i: int| #[trigger] is_common(x, y, (n - 1) as nat, before[k], i);
                assert(is_common(x, y, n, s[k], i));
            } else {
                assert(is_common(x, y, n, s[k], n - 1));
            }
        }
        assert forall|i: int| 0 <= i < n && has_key(y, (#[trigger] x[i]).0) implies has_key(
            s,
            x[i].0,
        ) && glb(x[i].1, y[key_index(y, x[i].0).unwrap()].1).is_some() by {
            if i < n - 1 {
                assert(has_key(before, x[i].0));
                let k = choose|k: int| 0 <= k < before.len() && (#[trigger] before[k]).0 == x[i].0;
                assert(s[k].0 == x[i].0);
            } else {
                assert(s[s.len() - 1].0 == x[i].0);
            }
        }
    }
}

/// `e` is the common entry of the entry `i` of `x`, one of the first `n`: it has its key,
/// which is a key of `y` too, and the greatest lower bound of the two values.
pub open spec fn is_common(
    x: Seq<(Tree, Tree)>,
    y: Seq<(Tree, Tree)>,
    n: nat,
    e: (Tree, Tree),
    i: int,
) -> bool {
    &&& 0 <= i < n
    &&& i < x.len()
    &&& e.0 == x[i].0
    &&& key_index(y, x[i].0).is_some()
    &&& glb(x[i].1, y[key_index(y, x[i].0).unwrap()].1) == Some(e.1)
}

/// `e` is the common entry of one of the first `n` entries of `x`.
pub open spec fn common_at(x: Seq<(Tree, Tree)>, y: Seq<(Tree, Tree)>, n: nat, e: (Tree, Tree)) -> bool {
    exists|i: int| #[trigger] is_common(x, y, n, e, i)
}

/// What holds of the bounds of two valid values: the greatest lower bound is at most both,
/// and it is the lesser of the two where one is at most the other.
pub proof fn lemma_glb(a: Tree, b: Tree)
    requires
        a.wf(),
        b.wf(),
    ensures
        glb(a, b).is_some() ==> mle(glb(a, b).unwrap(), a) && mle(glb(a, b).unwrap(), b),
        mle(a, b) ==> glb(a, b) == Some(a),
        mle(b, a) ==> glb(a, b) == Some(b),
    decreases a,
{
    match (a, b) {
        (Tree::Float(x), Tree::Float(y)) => {
            assert(NAN_BITS % SIGN_BIT == 0x7FFF_FFFF_FFFF_FFFFu64);
        },
        (Tree::Array(x), Tree::Array(y)) => {
            assert(a.wf() == (forall|j: int| 0 <= j < x.len() ==> (#[trigger] x[j]).wf()));
            assert(b.wf() == (forall|j: int| 0 <= j < y.len() ==> (#[trigger] y[j]).wf()));
            let n: nat = if x.len() <= y.len() {
                x.len()
            } else {
                y.len()
            };
            if glb_items(x, y, n).is_some() {
                lemma_items_bounds(x, y, n);
            }
            assert forall|i: int| 0 <= i < n implies (glb(x[i], y[i]).is_some() ==> mle(
                glb(x[i], y[i]).unwrap(),
                x[i],
            ) && mle(glb(x[i], y[i]).unwrap(), y[i])) && (mle(x[i], y[i]) ==> glb(x[i], y[i])
                == Some(x[i])) && (mle(y[i], x[i]) ==> glb(x[i], y[i]) == Some(y[i])) by {
                assert(x[i].wf() && y[i].wf());
                lemma_glb(x[i], y[i]);
            }
            if glb(a, b).is_some() {
                let s = glb_items(x, y, n).unwrap();
                assert(glb(a, b).unwrap() == Tree::Array(s));
                assert forall|i: int| 0 <= i < s.len() implies mle(#[trigger] s[i], x[i]) by {
                    assert(glb(x[i], y[i]) == Some(s[i]));
                }
                assert forall|i: int| 0 <= i < s.len() implies mle(#[trigger] s[i], y[i]) by {
                    assert(glb(x[i], y[i]) == Some(s[i]));
                }
            }
            if mle(a, b) {
                assert forall|i: int| 0 <= i < n implies (#[trigger] glb(x[i], y[i])).is_some() by {
                    assert(mle(x[i], y[i]));
                }
                lemma_items_some(x, y, n);
                lemma_items_bounds(x, y, n);
                let s = glb_items(x, y, n).unwrap();
                assert forall|i: int| 0 <= i < n implies s[i] == x[i] by {
                    assert(mle(x[i], y[i]));
                    assert(glb(x[i], y[i]) == Some(s[i]));
                }
                assert(s =~= x);
            }
            if mle(b, a) {
                assert forall|i: int| 0 <= i < n implies (#[trigger] glb(x[i], y[i])).is_some() by {
                    assert(mle(y[i], x[i]));
                }
                lemma_items_some(x, y, n);
                lemma_items_bounds(x, y, n);
                let s = glb_items(x, y, n).unwrap();
                assert forall|i: int| 0 <= i < n implies s[i] == y[i] by {
                    assert(mle(y[i], x[i]));
                    assert(glb(x[i], y[i]) == Some(s[i]));
                }
                assert(s =~= y);
            }
        },
        (Tree::Mapping(x), Tree::Mapping(y)) => {
            assert(a.wf() == entries_wf(x));
            assert(b.wf() == entries_wf(y));
            lemma_glb_maps(x, y);
        },
        _ => {},
    }
}

/// The index in `y` of the key of the entry `i` of `x`, a key of both.
pub open spec fn partner(x: Seq<(Tree, Tree)>, y: Seq<(Tree, Tree)>, i: int) -> int {
    key_index(y, x[i].0).unwrap()
}

/// The common entries of two valid maps are at most the entries of both, where the bounds
/// of the values are as `value_bounds` says.
proof fn lemma_glb_maps_lower(x: Seq<(Tree, Tree)>, y: Seq<(Tree, Tree)>)
    requires
        entries_wf(x),
        entries_wf(y),
        forall|i: int, j: int|
            0 <= i < x.len() && 0 <= j < y.len() ==> #[trigger] value_bounds(x[i].1, y[j].1),
        glb_entries(x, y, x.len()).is_some(),
    ensures
        forall|k: int|
            0 <= k < glb_entries(x, y, x.len()).unwrap().len() ==> entry_mle(
                #[trigger] glb_entries(x, y, x.len()).unwrap()[k],
                x,
            ) && entry_mle(glb_entries(x, y, x.len()).unwrap()[k], y),
{
    let n = x.len();
    let s = glb_entries(x, y, n).unwrap();
    lemma_glb_entries(x, y, n);
    assert forall|k: int| 0 <= k < s.len() implies entry_mle(#[trigger] s[k], x) && entry_mle(
        s[k],
        y,
    ) by {
        assert(common_at(x, y, n, s[k]));
        let i = choose|i: int| #[trigger] is_common(x, y, n, s[k], i);
        lemma_key_index_is(y, x[i].0);
        let j = partner(x, y, i);
        assert(value_bounds(x[i].1, y[j].1));
        assert(x[i].0 == s[k].0 && mle(s[k].1, x[i].1));
        assert(y[j].0 == s[k].0 && mle(s[k].1, y[j].1));
    }
}

/// Where `low`, one of two valid maps, is at most the other, the common entries of the two
/// are those of `low`.
proof fn lemma_glb_maps_low(x: Seq<(Tree, Tree)>, y: Seq<(Tree, Tree)>, low: Seq<(Tree, Tree)>)
    requires
        entries_wf(x),
        entries_wf(y),
        low == x || low == y,
        low == x ==> forall|i: int| 0 <= i < x.len() ==> entry_mle(#[trigger] x[i], y),
        low == y ==> forall|i: int| 0 <= i < y.len() ==> entry_mle(#[trigger] y[i], x),
        forall|i: int, j: int|
            0 <= i < x.len() && 0 <= j < y.len() ==> #[trigger] value_bounds(x[i].1, y[j].1),
    ensures
        glb_entries(x, y, x.len()) == Some(low),
{
    let n = x.len();
    lemma_all_common(x, y, low, n);
    let s = glb_entries(x, y, n).unwrap();
    lemma_glb_entries(x, y, n);
    assert(Tree::Mapping(x).wf() == entries_wf(x));
    assert(Tree::Mapping(y).wf() == entries_wf(y));
    assert(glb(Tree::Mapping(x), Tree::Mapping(y)) == Some(Tree::Mapping(s)));
    lemma_bounds_wf(Tree::Mapping(x), Tree::Mapping(y));
    assert(Tree::Mapping(s).wf() == entries_wf(s));
    lemma_same_entries(s, x, y, low);
}

proof fn lemma_glb_maps(x: Seq<(Tree, Tree)>, y: Seq<(Tree, Tree)>)
    requires
        entries_wf(x),
        entries_wf(y),
    ensures
        glb(Tree::Mapping(x), Tree::Mapping(y)).is_some() ==> mle(
            glb(Tree::Mapping(x), Tree::Mapping(y)).unwrap(),
            Tree::Mapping(x),
        ) && mle(glb(Tree::Mapping(x), Tree::Mapping(y)).unwrap(), Tree::Mapping(y)),
        mle(Tree::Mapping(x), Tree::Mapping(y)) ==> glb(Tree::Mapping(x), Tree::Mapping(y))
            == Some(Tree::Mapping(x)),
        mle(Tree::Mapping(y), Tree::Mapping(x)) ==> glb(Tree::Mapping(x), Tree::Mapping(y))
            == Some(Tree::Mapping(y)),
    decreases x, 0nat,
{
    let a = Tree::Mapping(x);
    let b = Tree::Mapping(y);
    let n = x.len();
    // The bounds of the values of every common key.
    assert forall|i: int, j: int|
        0 <= i < x.len() && 0 <= j < y.len() implies #[trigger] value_bounds(x[i].1, y[j].1) by {
        assert(x[i].1.wf() && y[j].1.wf());
        lemma_glb(x[i].1, y[j].1);
    }
    if glb_entries(x, y, n).is_some() {
        let s = glb_entries(x, y, n).unwrap();
        assert(glb(a, b) == Some(Tree::Mapping(s)));
        lemma_glb_maps_lower(x, y);
        assert(mle(Tree::Mapping(s), a) == (forall|k: int|
            0 <= k < s.len() ==> entry_mle(#[trigger] s[k], x)));
        assert(mle(Tree::Mapping(s), b) == (forall|k: int|
            0 <= k < s.len() ==> entry_mle(#[trigger] s[k], y)));
    }
    if mle(a, b) {
        assert(mle(a, b) == (forall|i: int| 0 <= i < x.len() ==> entry_mle(#[trigger] x[i], y)));
        lemma_glb_maps_low(x, y, x);
    }
    if mle(b, a) {
        assert(mle(b, a) == (forall|i: int| 0 <= i < y.len() ==> entry_mle(#[trigger] y[i], x)));
        lemma_glb_maps_low(x, y, y);
    }
}

/// What `lemma_glb` says of two values.
pub open spec fn value_bounds(u: Tree, v: Tree) -> bool {
    &&& glb(u, v).is_some() ==> mle(glb(u, v).unwrap(), u) && mle(glb(u, v).unwrap(), v)
    &&& mle(u, v) ==> glb(u, v) == Some(u)
    &&& mle(v, u) ==> glb(u, v) == Some(v)
}

/// Where `low`, one of `x` and `y`, is at most the other, every common key has a bound, so
/// the common entries exist.
proof fn lemma_all_common(
    x: Seq<(Tree, Tree)>,
    y: Seq<(Tree, Tree)>,
    low: Seq<(Tree, Tree)>,
    n: nat,
)
    requires
        entries_wf(x),
        entries_wf(y),
        n <= x.len(),
        low == x || low == y,
        low == x ==> forall|i: int| 0 <= i < x.len() ==> entry_mle(#[trigger] x[i], y),
        low == y ==> forall|i: int| 0 <= i < y.len() ==> entry_mle(#[trigger] y[i], x),
        forall|i: int, j: int|
            0 <= i < x.len() && 0 <= j < y.len() ==> #[trigger] value_bounds(x[i].1, y[j].1),
    ensures
        glb_entries(x, y, n).is_some(),
    decreases n,
{
    if n > 0 {
        lemma_all_common(x, y, low, (n - 1) as nat);
        lemma_key_index_is(y, x[n - 1].0);
        if key_index(y, x[n - 1].0).is_some() {
            let j = key_index(y, x[n - 1].0).unwrap();
            assert(value_bounds(x[n - 1].1, y[j].1));
            if low == x {
                assert(entry_mle(x[n - 1], y));
                let q = choose|q: int|
                    0 <= q < y.len() && (#[trigger] y[q]).0 == x[n - 1].0 && mle(
                        x[n - 1].1,
                        y[q].1,
                    );
                lemma_key_unique(y, q, j);
            } else {
                assert(entry_mle(y[j], x));
                let q = choose|q: int|
                    0 <= q < x.len() && (#[trigger] x[q]).0 == y[j].0 && mle(y[j].1, x[q].1);
                lemma_key_unique(x, q, n - 1);
            }
        }
    }
}

/// Where `low`, one of `x` and `y`, is at most the other, the common entries are `low`.
proof fn lemma_same_entries(
    s: Seq<(Tree, Tree)>,
    x: Seq<(Tree, Tree)>,
    y: Seq<(Tree, Tree)>,
    low: Seq<(Tree, Tree)>,
)
    requires
        entries_wf(x),
        entries_wf(y),
        entries_wf(s),
        low == x || low == y,
        low == x ==> forall|i: int| 0 <= i < x.len() ==> entry_mle(#[trigger] x[i], y),
        low == y ==> forall|i: int| 0 <= i < y.len() ==> entry_mle(#[trigger] y[i], x),
        forall|i: int, j: int|
            0 <= i < x.len() && 0 <= j < y.len() ==> #[trigger] value_bounds(x[i].1, y[j].1),
        forall|k: int| 0 <= k < s.len() ==> common_at(x, y, x.len(), #[trigger] s[k]),
        forall|i: int|
            0 <= i < x.len() && has_key(y, (#[trigger] x[i]).0) ==> has_key(s, x[i].0),
    ensures
        s == low,
{
    // The keys of `s` are those of `low`.
    assert forall|k: int| 0 <= k < s.len() implies has_key(low, (#[trigger] s[k]).0) by {
        assert(common_at(x, y, x.len(), s[k]));
        let i = choose|i: int| #[trigger] is_common(x, y, x.len(), s[k], i);
        lemma_key_index_is(y, x[i].0);
        let j = partner(x, y, i);
        assert(x[i].0 == s[k].0);
        assert(y[j].0 == s[k].0);
    }
    assert forall|k: int| 0 <= k < low.len() implies has_key(s, (#[trigger] low[k]).0) by {
        if low == x {
            assert(entry_mle(x[k], y));
            let q = choose|q: int|
                0 <= q < y.len() && (#[trigger] y[q]).0 == x[k].0 && mle(x[k].1, y[q].1);
            assert(y[q].0 == x[k].0);
            assert(has_key(y, x[k].0));
        } else {
            assert(entry_mle(y[k], x));
            let q = choose|q: int|
                0 <= q < x.len() && (#[trigger] x[q]).0 == y[k].0 && mle(y[k].1, x[q].1);
            assert(y[k].0 == x[q].0);
            assert(has_key(y, x[q].0));
            assert(has_key(s, x[q].0));
        }
    }
    lemma_same_keys(s, low);
    assert forall|k: int| 0 <= k < s.len() implies s[k] == low[k] by {
        assert(common_at(x, y, x.len(), s[k]));
        let i = choose|i: int| #[trigger] is_common(x, y, x.len(), s[k], i);
        lemma_key_index_is(y, x[i].0);
        let j = partner(x, y, i);
        assert(value_bounds(x[i].1, y[j].1));
        assert(s[k].0 == low[k].0);
        if low == x {
            lemma_key_unique(x, i, k);
            assert(entry_mle(x[i], y));
            let q = choose|q: int|
                0 <= q < y.len() && (#[trigger] y[q]).0 == x[i].0 && mle(x[i].1, y[q].1);
            lemma_key_unique(y, q, j);
        } else {
            lemma_key_unique(y, j, k);
            assert(entry_mle(y[j], x));
            let q = choose|q: int|
                0 <= q < x.len() && (#[trigger] x[q]).0 == y[j].0 && mle(y[j].1, x[q].1);
            lemma_key_unique(x, q, i);
        }
    }
    assert(s =~= low);
}

/// The greatest lower bound of two values is a lower bound of both.
pub proof fn law_glb_is_lower_bound(a: Value, b: Value)
    requires
        a.wf(),
        b.wf(),
        glb(a@, b@).is_some(),
    ensures
        mle(glb(a@, b@).unwrap(), a@),
        mle(glb(a@, b@).unwrap(), b@),
{
    lemma_glb(a@, b@);
}

/// The greatest lower bound of two values, where they have one, is one of the two exactly
/// where one of them is at most the other; and it is then the lesser one.
pub proof fn law_glb_is_input_iff_comparable(a: Value, b: Value)
    requires
        a.wf(),
        b.wf(),
    ensures
        mle(a@, b@) ==> glb(a@, b@) == Some(a@),
        mle(b@, a@) ==> glb(a@, b@) == Some(b@),
        glb(a@, b@) == Some(a@) ==> mle(a@, b@),
        glb(a@, b@) == Some(b@) ==> mle(b@, a@),
        meaningful_order(a@, b@).is_none() && glb(a@, b@).is_some() ==> glb(a@, b@) != Some(a@)
            && glb(a@, b@) != Some(b@),
{
    lemma_glb(a@, b@);
}

/// The greatest lower bound of a value and itself is the value.
pub proof fn law_glb_idempotent(a: Value)
    requires
        a.wf(),
    ensures
        glb(a@, a@) == Some(a@),
{
    lemma_mle_reflexive(a@);
    lemma_glb(a@, a@);
}

/// `e` is one of the entries.
pub open spec fn has_entry(s: Seq<(Tree, Tree)>, e: (Tree, Tree)) -> bool {
    exists|k: int| 0 <= k < s.len() && (#[trigger] s[k]) == e
}

/// Binding a key that the entries of a valid map have not adds an entry and keeps the
/// others.
pub proof fn lemma_insert_new(es: Seq<(Tree, Tree)>, key: Tree, value: Tree)
    requires
        entries_wf(es),
        key.wf(),
        !has_key(es, key),
    ensures
        has_entry(insert(es, key, value), (key, value)),
        forall|k: int| 0 <= k < es.len() ==> has_entry(insert(es, key, value), #[trigger] es[k]),
        forall|k: int|
            0 <= k < insert(es, key, value).len() ==> (#[trigger] insert(es, key, value)[k]) == (
                key,
                value,
            ) || has_entry(es, insert(es, key, value)[k]),
{
    let p = lower_bound(es, key, 0);
    lemma_lower_bound(es, key, 0);
    if p < es.len() {
        assert(es[p].0.wf());
        lemma_wf_normal(es[p].0);
        lemma_wf_normal(key);
        lemma_order_equal(es[p].0, key);
        assert(es[p].0 != key);
    }
    let r = es.insert(p, (key, value));
    assert(insert(es, key, value) == r);
    assert(r[p] == (key, value));
    assert forall|k: int| 0 <= k < es.len() implies has_entry(r, #[trigger] es[k]) by {
        if k < p {
            assert(r[k] == es[k]);
        } else {
            assert(r[k + 1] == es[k]);
        }
    }
    assert forall|k: int| 0 <= k < r.len() implies (#[trigger] r[k]) == (key, value) || has_entry(
        es,
        r[k],
    ) by {
        if k < p {
            assert(es[k] == r[k]);
        } else if k > p {
            assert(es[k - 1] == r[k]);
        }
    }
}

/// The entries of `x` with the least upper bounds (see `lub_entries`), index by index.
pub proof fn lemma_lub_entries(x: Seq<(Tree, Tree)>, y: Seq<(Tree, Tree)>, n: nat)
    requires
        n <= x.len(),
        lub_entries(x, y, n).is_some(),
    ensures
        lub_entries(x, y, n).unwrap().len() == n,
        forall|i: int|
            0 <= i < n ==> (#[trigger] lub_entries(x, y, n).unwrap()[i]) == joined(x, y, i) && (
            key_index(y, x[i].0).is_some() ==> lub(x[i].1, y[partner(x, y, i)].1).is_some()),
    decreases n,
{
    if n > 0 {
        lemma_lub_entries(x, y, (n - 1) as nat);
    }
}

/// The entry `i` of `x` with the least upper bound of its value and that of the same key in
/// `y`, if `y` has the key.
pub open spec fn joined(x: Seq<(Tree, Tree)>, y: Seq<(Tree, Tree)>, i: int) -> (Tree, Tree) {
    if key_index(y, x[i].0).is_some() {
        (x[i].0, lub(x[i].1, y[partner(x, y, i)].1).unwrap())
    } else {
        x[i]
    }
}

/// Where the values of each common key have a least upper bound, the joined entries exist.
pub proof fn lemma_lub_entries_some(x: Seq<(Tree, Tree)>, y: Seq<(Tree, Tree)>, n: nat)
    requires
        n <= x.len(),
        forall|i: int|
            0 <= i < n && key_index(y, (#[trigger] x[i]).0).is_some() ==> lub(
                x[i].1,
                y[partner(x, y, i)].1,
            ).is_some(),
    ensures
        lub_entries(x, y, n).is_some(),
    decreases n,
{
    if n > 0 {
        lemma_lub_entries_some(x, y, (n - 1) as nat);
        assert(key_index(y, x[n - 1].0).is_some() ==> lub(
            x[n - 1].1,
            y[partner(x, y, n - 1)].1,
        ).is_some());
    }
}

/// What adding the missing entries gives (see `add_missing`), where `acc` has the keys of
/// `x`: valid entries; those of `acc` and those of the first `n` of `y` whose key `x` has
/// not, and no others.
pub proof fn lemma_add_missing(
    acc: Seq<(Tree, Tree)>,
    x: Seq<(Tree, Tree)>,
    y: Seq<(Tree, Tree)>,
    n: nat,
)
    requires
        entries_wf(acc),
        entries_wf(x),
        entries_wf(y),
        n <= y.len(),
        forall|k: int| 0 <= k < acc.len() ==> has_key(x, (#[trigger] acc[k]).0),
    ensures
        entries_wf(add_missing(acc, x, y, n)),
        forall|k: int| 0 <= k < acc.len() ==> has_entry(add_missing(acc, x, y, n), #[trigger] acc[k]),
        forall|j: int|
            0 <= j < n && !has_key(x, (#[trigger] y[j]).0) ==> has_entry(
                add_missing(acc, x, y, n),
                y[j],
            ),
        forall|k: int|
            0 <= k < add_missing(acc, x, y, n).len() ==> has_entry(
                acc,
                #[trigger] add_missing(acc, x, y, n)[k],
            ) || added(x, y, n, add_missing(acc, x, y, n)[k]),
    decreases n,
{
    if n > 0 {
        let before = add_missing(acc, x, y, (n - 1) as nat);
        let r = add_missing(acc, x, y, n);
        lemma_add_missing(acc, x, y, (n - 1) as nat);
        lemma_key_index_is(x, y[n - 1].0);
        if key_index(x, y[n - 1].0).is_none() {
            assert(y[n - 1].0.wf() && y[n - 1].1.wf());
            // The key is new: it is no key of `x`, and no key of an earlier entry of `y`.
            if has_key(before, y[n - 1].0) {
                let k = choose|k: int| 0 <= k < before.len() && (#[trigger] before[k]).0 == y[n
                    - 1].0;
                if has_entry(acc, before[k]) {
                    let c = choose|c: int| 0 <= c < acc.len() && #[trigger] acc[c] == before[k];
                    assert(has_key(x, acc[c].0));
                } else {
                    assert(added(x, y, (n - 1) as nat, before[k]));
                    let j = choose|j: int| #[trigger] is_added(x, y, (n - 1) as nat, before[k], j);
                    lemma_key_unique(y, j, n - 1);
                }
            }
            lemma_insert_new(before, y[n - 1].0, y[n - 1].1);
            lemma_insert_wf(before, y[n - 1].0, y[n - 1].1);
            assert forall|k: int| 0 <= k < acc.len() implies has_entry(r, #[trigger] acc[k]) by {
                assert(has_entry(before, acc[k]));
                let c = choose|c: int| 0 <= c < before.len() && #[trigger] before[c] == acc[k];
                assert(has_entry(r, before[c]));
            }
            assert forall|j: int| 0 <= j < n && !has_key(x, (#[trigger] y[j]).0) implies has_entry(
                r,
                y[j],
            ) by {
                if j < n - 1 {
                    assert(has_entry(before, y[j]));
                    let c = choose|c: int| 0 <= c < before.len() && #[trigger] before[c] == y[j];
                    assert(has_entry(r, before[c]));
                }
            }
            assert forall|k: int| 0 <= k < r.len() implies has_entry(acc, #[trigger] r[k]) || added(
                x,
                y,
                n,
                r[k],
            ) by {
                if r[k] == (y[n - 1].0, y[n - 1].1) {
                    assert(is_added(x, y, n, r[k], n - 1));
                } else {
                    assert(has_entry(before, r[k]));
                    let c = choose|c: int| 0 <= c < before.len() && #[trigger] before[c] == r[k];
                    if !has_entry(acc, before[c]) {
                        assert(added(x, y, (n - 1) as nat, before[c]));
                        let j = choose|j: int|
                            #[trigger] is_added(x, y, (n - 1) as nat, before[c], j);
                        assert(is_added(x, y, n, r[k], j));
                    }
                }
            }
        } else {
            assert(has_key(x, y[n - 1].0)) by {
                let i = key_index(x, y[n - 1].0).unwrap();
                assert(x[i].0 == y[n - 1].0);
            }
            assert forall|k: int| 0 <= k < r.len() implies has_entry(acc, #[trigger] r[k]) || added(
                x,
                y,
                n,
                r[k],
            ) by {
                if !has_entry(acc, r[k]) {
                    assert(added(x, y, (n - 1) as nat, before[k]));
                    let j = choose|j: int| #[trigger] is_added(x, y, (n - 1) as nat, before[k], j);
                    assert(is_added(x, y, n, r[k], j));
                }
            }
        }
    }
}

/// `e` is the entry `j` of `y`, one of the first `n`, and its key is no key of `x`.
pub open spec fn is_added(
    x: Seq<(Tree, Tree)>,
    y: Seq<(Tree, Tree)>,
    n: nat,
    e: (Tree, Tree),
    j: int,
) -> bool {
    0 <= j < n && j < y.len() && e == y[j] && !has_key(x, y[j].0)
}

/// `e` is one of the first `n` entries of `y`, and its key is no key of `x`.
pub open spec fn added(x: Seq<(Tree, Tree)>, y: Seq<(Tree, Tree)>, n: nat, e: (Tree, Tree)) -> bool {
    exists|j: int| #[trigger] is_added(x, y, n, e, j)
}

/// What `lemma_lub` says of two values.
pub open spec fn value_joins(u: Tree, v: Tree) -> bool {
    &&& lub(u, v).is_some() ==> mle(u, lub(u, v).unwrap()) && mle(v, lub(u, v).unwrap())
    &&& mle(u, v) ==> lub(u, v) == Some(v)
    &&& mle(v, u) ==> lub(u, v) == Some(u)
}

/// The least upper bounds of the first `n` items of two arrays, index by index.
pub proof fn lemma_items_joins(x: Seq<Tree>, y: Seq<Tree>, n: nat)
    requires
        n <= x.len() || n <= y.len(),
        lub_items(x, y, n).is_some(),
    ensures
        lub_items(x, y, n).unwrap().len() == n,
        forall|i: int|
            0 <= i < n ==> (#[trigger] lub_items(x, y, n).unwrap()[i]) == (if i < x.len() && i
                < y.len() {
                lub(x[i], y[i]).unwrap()
            } else if i < x.len() {
                x[i]
            } else {
                y[i]
            }) && (i < x.len() && i < y.len() ==> lub(x[i], y[i]).is_some()),
    decreases n,
{
    if n > 0 {
        lemma_items_joins(x, y, (n - 1) as nat);
    }
}

/// Where each pair of items has a least upper bound, the arrays have them all.
pub proof fn lemma_items_joins_some(x: Seq<Tree>, y: Seq<Tree>, n: nat)
    requires
        n <= x.len() || n <= y.len(),
        forall|i: int|
            0 <= i < n && i < x.len() && i < y.len() ==> (#[trigger] lub(x[i], y[i])).is_some(),
    ensures
        lub_items(x, y, n).is_some(),
    decreases n,
{
    if n > 0 {
        lemma_items_joins_some(x, y, (n - 1) as nat);
        if n <= x.len() && n <= y.len() {
            assert(lub(x[n - 1], y[n - 1]).is_some());
        }
    }
}

/// What holds of the least upper bound of two valid values: both are at most it, and it is
/// the greater of the two where one is at most the other.
pub proof fn lemma_lub(a: Tree, b: Tree)
    requires
        a.wf(),
        b.wf(),
    ensures
        value_joins(a, b),
    decreases a,
{
    match (a, b) {
        (Tree::Float(x), Tree::Float(y)) => {
            assert(NAN_BITS % SIGN_BIT == 0x7FFF_FFFF_FFFF_FFFFu64);
        },
        (Tree::Array(x), Tree::Array(y)) => {
            assert(a.wf() == (forall|j: int| 0 <= j < x.len() ==> (#[trigger] x[j]).wf()));
            assert(b.wf() == (forall|j: int| 0 <= j < y.len() ==> (#[trigger] y[j]).wf()));
            let n: nat = if x.len() <= y.len() {
                y.len()
            } else {
                x.len()
            };
            assert forall|i: int| 0 <= i < x.len() && i < y.len() implies #[trigger] value_joins(
                x[i],
                y[i],
            ) by {
                assert(x[i].wf() && y[i].wf());
                lemma_lub(x[i], y[i]);
            }
            assert forall|i: int| 0 <= i < x.len() implies mle(#[trigger] x[i], x[i]) by {
                lemma_mle_reflexive(x[i]);
            }
            assert forall|i: int| 0 <= i < y.len() implies mle(#[trigger] y[i], y[i]) by {
                lemma_mle_reflexive(y[i]);
            }
            if lub(a, b).is_some() {
                lemma_items_joins(x, y, n);
                let s = lub_items(x, y, n).unwrap();
                assert(lub(a, b).unwrap() == Tree::Array(s));
                assert forall|i: int| 0 <= i < x.len() implies mle(#[trigger] x[i], s[i]) by {
                    if i < y.len() {
                        assert(value_joins(x[i], y[i]));
                    }
                }
                assert forall|i: int| 0 <= i < y.len() implies mle(#[trigger] y[i], s[i]) by {
                    if i < x.len() {
                        assert(value_joins(x[i], y[i]));
                    }
                }
            }
            if mle(a, b) {
                assert forall|i: int| 0 <= i < n && i < x.len() && i < y.len() implies (
                #[trigger] lub(x[i], y[i])).is_some() by {
                    assert(mle(x[i], y[i]));
                    assert(value_joins(x[i], y[i]));
                }
                lemma_items_joins_some(x, y, n);
                lemma_items_joins(x, y, n);
                let s = lub_items(x, y, n).unwrap();
                assert forall|i: int| 0 <= i < n implies s[i] == y[i] by {
                    if i < x.len() {
                        assert(mle(x[i], y[i]));
                        assert(value_joins(x[i], y[i]));
                    }
                }
                assert(s =~= y);
            }
            if mle(b, a) {
                assert forall|i: int| 0 <= i < n && i < x.len() && i < y.len() implies (
                #[trigger] lub(x[i], y[i])).is_some() by {
                    assert(mle(y[i], x[i]));
                    assert(value_joins(x[i], y[i]));
                }
                lemma_items_joins_some(x, y, n);
                lemma_items_joins(x, y, n);
                let s = lub_items(x, y, n).unwrap();
                assert forall|i: int| 0 <= i < n implies s[i] == x[i] by {
                    if i < y.len() {
                        assert(mle(y[i], x[i]));
                        assert(value_joins(x[i], y[i]));
                    }
                }
                assert(s =~= x);
            }
        },
        (Tree::Mapping(x), Tree::Mapping(y)) => {
            assert(a.wf() == entries_wf(x));
            assert(b.wf() == entries_wf(y));
            lemma_lub_maps(x, y);
        },
        _ => {},
    }
}

proof fn lemma_lub_maps(x: Seq<(Tree, Tree)>, y: Seq<(Tree, Tree)>)
    requires
        entries_wf(x),
        entries_wf(y),
    ensures
        value_joins(Tree::Mapping(x), Tree::Mapping(y)),
    decreases x, 0nat,
{
    let a = Tree::Mapping(x);
    let b = Tree::Mapping(y);
    let n = x.len();
    assert forall|i: int, j: int|
        0 <= i < x.len() && 0 <= j < y.len() implies #[trigger] value_joins(x[i].1, y[j].1) by {
        assert(x[i].1.wf() && y[j].1.wf());
        lemma_lub(x[i].1, y[j].1);
    }
    assert(mle(a, b) == low_entries(x, y));
    assert(mle(b, a) == low_entries(y, x));
    if mle(a, b) {
        lemma_lub_some(x, y, true);
    }
    if mle(b, a) {
        lemma_lub_some(x, y, false);
    }
    if lub_entries(x, y, n).is_some() {
        let s = lub_entries(x, y, n).unwrap();
        let r = add_missing(s, x, y, y.len());
        assert(lub(a, b) == Some(Tree::Mapping(r)));
        lemma_lub_facts(x, y);
        lemma_lub_upper(x, y, s, r);
        assert(mle(a, Tree::Mapping(r)) == low_entries(x, r));
        assert(mle(b, Tree::Mapping(r)) == low_entries(y, r));
        if mle(a, b) {
            lemma_lub_low_x(x, y, s, r);
        }
        if mle(b, a) {
            lemma_lub_low_y(x, y, s, r);
        }
    }
}

/// Every entry of `x` has its key in `y`, with a value at most the one in `y`.
pub open spec fn low_entries(x: Seq<(Tree, Tree)>, y: Seq<(Tree, Tree)>) -> bool {
    forall|i: int| 0 <= i < x.len() ==> entry_mle(#[trigger] x[i], y)
}

/// What `lemma_lub` says of each value of `x` and each value of `y`.
pub open spec fn values_join(x: Seq<(Tree, Tree)>, y: Seq<(Tree, Tree)>) -> bool {
    forall|i: int, j: int|
        0 <= i < x.len() && 0 <= j < y.len() ==> #[trigger] value_joins(x[i].1, y[j].1)
}

/// `s` holds the joined entries of `x`, and `r` these and the entries of `y` whose key `x`
/// has not, as the entries of a valid map.
pub open spec fn lub_facts(
    x: Seq<(Tree, Tree)>,
    y: Seq<(Tree, Tree)>,
    s: Seq<(Tree, Tree)>,
    r: Seq<(Tree, Tree)>,
) -> bool {
    &&& s.len() == x.len()
    &&& forall|i: int| 0 <= i < x.len() ==> (#[trigger] s[i]) == joined(x, y, i)
    &&& entries_wf(r)
    &&& forall|k: int| 0 <= k < s.len() ==> has_entry(r, #[trigger] s[k])
    &&& forall|j: int| 0 <= j < y.len() && !has_key(x, (#[trigger] y[j]).0) ==> has_entry(r, y[j])
    &&& forall|k: int|
        0 <= k < r.len() ==> has_entry(s, #[trigger] r[k]) || added(x, y, y.len(), r[k])
}

proof fn lemma_lub_some(x: Seq<(Tree, Tree)>, y: Seq<(Tree, Tree)>, x_low: bool)
    requires
        entries_wf(x),
        entries_wf(y),
        values_join(x, y),
        x_low ==> low_entries(x, y),
        !x_low ==> low_entries(y, x),
    ensures
        lub_entries(x, y, x.len()).is_some(),
{
    let n = x.len();
    assert forall|i: int|
        0 <= i < n && key_index(y, (#[trigger] x[i]).0).is_some() implies lub(
        x[i].1,
        y[partner(x, y, i)].1,
    ).is_some() by {
        lemma_key_index_is(y, x[i].0);
        let j = partner(x, y, i);
        assert(value_joins(x[i].1, y[j].1));
        if x_low {
            assert(entry_mle(x[i], y));
            let q = choose|q: int|
                0 <= q < y.len() && (#[trigger] y[q]).0 == x[i].0 && mle(x[i].1, y[q].1);
            lemma_key_unique(y, q, j);
        } else {
            assert(entry_mle(y[j], x));
            let q = choose|q: int|
                0 <= q < x.len() && (#[trigger] x[q]).0 == y[j].0 && mle(y[j].1, x[q].1);
            lemma_key_unique(x, q, i);
        }
    }
    lemma_lub_entries_some(x, y, n);
}

/// What the least upper bound of two valid maps holds (see `lub_facts`), where the joined
/// entries exist; and then the values of each common key have a least upper bound.
pub proof fn lemma_lub_facts(x: Seq<(Tree, Tree)>, y: Seq<(Tree, Tree)>)
    requires
        entries_wf(x),
        entries_wf(y),
        lub_entries(x, y, x.len()).is_some(),
    ensures
        lub_facts(
            x,
            y,
            lub_entries(x, y, x.len()).unwrap(),
            add_missing(lub_entries(x, y, x.len()).unwrap(), x, y, y.len()),
        ),
        forall|i: int|
            0 <= i < x.len() && key_index(y, (#[trigger] x[i]).0).is_some() ==> lub(
                x[i].1,
                y[partner(x, y, i)].1,
            ).is_some(),
{
    let s = lub_entries(x, y, x.len()).unwrap();
    lemma_lub_entries(x, y, x.len());
    assert forall|k: int| 0 <= k < s.len() implies has_key(x, (#[trigger] s[k]).0) by {
        assert(s[k] == joined(x, y, k));
        assert(x[k].0 == s[k].0);
    }
    crate::bounds::lemma_joined_entries_wf(x, y, x.len());
    lemma_add_missing(s, x, y, y.len());
    assert forall|i: int|
        0 <= i < x.len() && key_index(y, (#[trigger] x[i]).0).is_some() implies lub(
        x[i].1,
        y[partner(x, y, i)].1,
    ).is_some() by {
        assert(s[i] == joined(x, y, i));
    }
}

proof fn lemma_lub_upper(
    x: Seq<(Tree, Tree)>,
    y: Seq<(Tree, Tree)>,
    s: Seq<(Tree, Tree)>,
    r: Seq<(Tree, Tree)>,
)
    requires
        entries_wf(x),
        entries_wf(y),
        values_join(x, y),
        lub_facts(x, y, s, r),
        forall|i: int|
            0 <= i < x.len() && key_index(y, (#[trigger] x[i]).0).is_some() ==> lub(
                x[i].1,
                y[partner(x, y, i)].1,
            ).is_some(),
    ensures
        low_entries(x, r),
        low_entries(y, r),
{
    assert forall|i: int| 0 <= i < x.len() implies entry_mle(#[trigger] x[i], r) by {
        assert(s[i] == joined(x, y, i));
        assert(has_entry(r, s[i]));
        let k = choose|k: int| 0 <= k < r.len() && #[trigger] r[k] == s[i];
        lemma_key_index_is(y, x[i].0);
        lemma_mle_reflexive(x[i].1);
        if key_index(y, x[i].0).is_some() {
            assert(value_joins(x[i].1, y[partner(x, y, i)].1));
        }
        assert(r[k].0 == x[i].0 && mle(x[i].1, r[k].1));
    }
    assert forall|j: int| 0 <= j < y.len() implies entry_mle(#[trigger] y[j], r) by {
        lemma_key_index_is(x, y[j].0);
        lemma_mle_reflexive(y[j].1);
        if key_index(x, y[j].0).is_some() {
            let i = key_index(x, y[j].0).unwrap();
            lemma_key_index(y, x[i].0, j);
            assert(s[i] == joined(x, y, i));
            assert(value_joins(x[i].1, y[j].1));
            assert(has_entry(r, s[i]));
            let k = choose|k: int| 0 <= k < r.len() && #[trigger] r[k] == s[i];
            assert(r[k].0 == y[j].0 && mle(y[j].1, r[k].1));
        } else {
            assert(has_entry(r, y[j]));
            let k = choose|k: int| 0 <= k < r.len() && #[trigger] r[k] == y[j];
            assert(r[k].0 == y[j].0 && mle(y[j].1, r[k].1));
        }
    }
}

/// Where `x` is at most `y`, the bound is `y`.
proof fn lemma_lub_low_x(
    x: Seq<(Tree, Tree)>,
    y: Seq<(Tree, Tree)>,
    s: Seq<(Tree, Tree)>,
    r: Seq<(Tree, Tree)>,
)
    requires
        entries_wf(x),
        entries_wf(y),
        values_join(x, y),
        lub_facts(x, y, s, r),
        low_entries(x, y),
        low_entries(y, r),
    ensures
        r == y,
{
    assert forall|k: int| 0 <= k < r.len() implies has_entry(y, #[trigger] r[k]) by {
        if has_entry(s, r[k]) {
            let i = choose|i: int| 0 <= i < s.len() && #[trigger] s[i] == r[k];
            assert(s[i] == joined(x, y, i));
            assert(entry_mle(x[i], y));
            let q = choose|q: int|
                0 <= q < y.len() && (#[trigger] y[q]).0 == x[i].0 && mle(x[i].1, y[q].1);
            lemma_key_index(y, x[i].0, q);
            assert(value_joins(x[i].1, y[q].1));
            assert(y[q] == r[k]);
        } else {
            assert(added(x, y, y.len(), r[k]));
            let j = choose|j: int| #[trigger] is_added(x, y, y.len(), r[k], j);
            assert(y[j] == r[k]);
        }
    }
    assert forall|j: int| 0 <= j < y.len() implies has_key(r, (#[trigger] y[j]).0) by {
        assert(entry_mle(y[j], r));
        let k = choose|k: int|
            0 <= k < r.len() && (#[trigger] r[k]).0 == y[j].0 && mle(y[j].1, r[k].1);
        assert(r[k].0 == y[j].0);
    }
    assert forall|k: int| 0 <= k < r.len() implies has_key(y, (#[trigger] r[k]).0) by {
        assert(has_entry(y, r[k]));
        let j = choose|j: int| 0 <= j < y.len() && #[trigger] y[j] == r[k];
        assert(y[j].0 == r[k].0);
    }
    lemma_same_keys(r, y);
    assert forall|k: int| 0 <= k < r.len() implies r[k] == y[k] by {
        assert(has_entry(y, r[k]));
        let j = choose|j: int| 0 <= j < y.len() && #[trigger] y[j] == r[k];
        lemma_key_unique(y, j, k);
    }
    assert(r =~= y);
}

/// Where `y` is at most `x`, the bound is `x`.
#[verifier::rlimit(40)]
proof fn lemma_lub_low_y(
    x: Seq<(Tree, Tree)>,
    y: Seq<(Tree, Tree)>,
    s: Seq<(Tree, Tree)>,
    r: Seq<(Tree, Tree)>,
)
    requires
        entries_wf(x),
        entries_wf(y),
        values_join(x, y),
        lub_facts(x, y, s, r),
        low_entries(y, x),
    ensures
        r == x,
{
    assert forall|k: int| 0 <= k < s.len() implies s[k] == x[k] by {
        assert(s[k] == joined(x, y, k));
        lemma_key_index_is(y, x[k].0);
        if key_index(y, x[k].0).is_some() {
            let j = partner(x, y, k);
            assert(entry_mle(y[j], x));
            let q = choose|q: int|
                0 <= q < x.len() && (#[trigger] x[q]).0 == y[j].0 && mle(y[j].1, x[q].1);
            lemma_key_unique(x, q, k);
            assert(value_joins(x[k].1, y[j].1));
        }
    }
    assert(s =~= x);
    assert forall|k: int| 0 <= k < r.len() implies has_entry(x, #[trigger] r[k]) by {
        if !has_entry(s, r[k]) {
            assert(added(x, y, y.len(), r[k]));
            let j = choose|j: int| #[trigger] is_added(x, y, y.len(), r[k], j);
            assert(entry_mle(y[j], x));
            let q = choose|q: int|
                0 <= q < x.len() && (#[trigger] x[q]).0 == y[j].0 && mle(y[j].1, x[q].1);
            assert(x[q].0 == y[j].0);
        }
    }
    assert forall|k: int| 0 <= k < r.len() implies has_key(x, (#[trigger] r[k]).0) by {
        assert(has_entry(x, r[k]));
        let j = choose|j: int| 0 <= j < x.len() && #[trigger] x[j] == r[k];
        assert(x[j].0 == r[k].0);
    }
    assert forall|i: int| 0 <= i < x.len() implies has_key(r, (#[trigger] x[i]).0) by {
        assert(has_entry(r, s[i]));
        let k = choose|k: int| 0 <= k < r.len() && #[trigger] r[k] == s[i];
        assert(r[k].0 == x[i].0);
    }
    lemma_same_keys(r, x);
    assert forall|k: int| 0 <= k < r.len() implies r[k] == x[k] by {
        assert(has_entry(x, r[k]));
        let j = choose|j: int| 0 <= j < x.len() && #[trigger] x[j] == r[k];
        lemma_key_unique(x, j, k);
    }
    assert(r =~= x);
}

/// Both values are at most their least upper bound.
pub proof fn law_lub_is_upper_bound(a: Value, b: Value)
    requires
        a.wf(),
        b.wf(),
        lub(a@, b@).is_some(),
    ensures
        mle(a@, lub(a@, b@).unwrap()),
        mle(b@, lub(a@, b@).unwrap()),
{
    lemma_lub(a@, b@);
}

/// The least upper bound of two values, where they have one, is one of the two exactly
/// where one of them is at most the other; and it is then the greater one.
pub proof fn law_lub_is_input_iff_comparable(a: Value, b: Value)
    requires
        a.wf(),
        b.wf(),
    ensures
        mle(a@, b@) ==> lub(a@, b@) == Some(b@),
        mle(b@, a@) ==> lub(a@, b@) == Some(a@),
        lub(a@, b@) == Some(b@) ==> mle(a@, b@),
        lub(a@, b@) == Some(a@) ==> mle(b@, a@),
        meaningful_order(a@, b@).is_none() && lub(a@, b@).is_some() ==> lub(a@, b@) != Some(a@)
            && lub(a@, b@) != Some(b@),
{
    lemma_lub(a@, b@);
}

/// The least upper bound of a value and itself is the value.
pub proof fn law_lub_idempotent(a: Value)
    requires
        a.wf(),
    ensures
        lub(a@, a@) == Some(a@),
{
    lemma_mle_reflexive(a@);
    lemma_lub(a@, a@);
}

/// Absorption: a value is the greatest lower bound of itself and its least upper bound with
/// another value, and the least upper bound of itself and its greatest lower bound with
/// another value.
pub proof fn law_absorption(a: Value, b: Value)
    requires
        a.wf(),
        b.wf(),
    ensures
        lub(a@, b@).is_some() ==> glb(a@, lub(a@, b@).unwrap()) == Some(a@),
        glb(a@, b@).is_some() ==> lub(a@, glb(a@, b@).unwrap()) == Some(a@),
{
    lemma_bounds_wf(a@, b@);
    lemma_lub(a@, b@);
    lemma_glb(a@, b@);
    if lub(a@, b@).is_some() {
        lemma_glb(a@, lub(a@, b@).unwrap());
    }
    if glb(a@, b@).is_some() {
        lemma_lub(a@, glb(a@, b@).unwrap());
    }
}

} // verus!

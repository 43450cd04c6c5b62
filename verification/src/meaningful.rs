//! The meaningful partial order on values: "is a part of".
use crate::order::{find_key, float_key, is_key_index, lemma_key_unique, order_float_bits, Order};
use crate::value::{is_nan, tree_entries, trees, Tree, Value, SIGN_BIT};
use vstd::prelude::*;

verus! {

/// Whether one float is at most another in the natural order. A NaN is at most a NaN and
/// comparable to nothing else; -0 and +0 are not comparable.
pub open spec fn float_mle(a: u64, b: u64) -> bool {
    if is_nan(a) || is_nan(b) {
        is_nan(a) && is_nan(b)
    } else if (a == 0 && b == SIGN_BIT) || (a == SIGN_BIT && b == 0) {
        false
    } else {
        float_key(a) <= float_key(b)
    }
}

/// Whether `a` is at most `b` in the meaningful partial order: the same variant, and
/// false at most true; ints and floats in their natural order; an array at most another if
/// it is no longer and each of its items is at most the other's item at that index; a map at
/// most another if each of its keys is a key of the other, with a value at most the other's.
pub open spec fn mle(a: Tree, b: Tree) -> bool
    decreases a,
{
    match (a, b) {
        (Tree::Nil, Tree::Nil) => true,
        (Tree::Bool(x), Tree::Bool(y)) => !x || y,
        (Tree::Float(x), Tree::Float(y)) => float_mle(x, y),
        (Tree::Int(x), Tree::Int(y)) => x <= y,
        (Tree::Array(x), Tree::Array(y)) => x.len() <= y.len() && forall|i: int|
            0 <= i < x.len() ==> mle(#[trigger] x[i], y[i]),
        (Tree::Mapping(x), Tree::Mapping(y)) => forall|i: int|
            0 <= i < x.len() ==> entry_mle(#[trigger] x[i], y),
        _ => false,
    }
}

/// Whether the entry's key is a key of `y`, with a value at most the one in `y`.
pub open spec fn entry_mle(e: (Tree, Tree), y: Seq<(Tree, Tree)>) -> bool
    decreases e,
{
    exists|j: int| 0 <= j < y.len() && (#[trigger] y[j]).0 == e.0 && mle(e.1, y[j].1)
}

/// The outcome of comparing two values in the meaningful partial order, `None` where
/// neither is at most the other.
pub open spec fn meaningful_order(a: Tree, b: Tree) -> Option<Order> {
    if mle(a, b) {
        if mle(b, a) {
            Some(Order::Equal)
        } else {
            Some(Order::Less)
        }
    } else if mle(b, a) {
        Some(Order::Greater)
    } else {
        None
    }
}

/// Whether one float is at most another in the natural order.
pub fn float_le(a: u64, b: u64) -> (r: bool)
    ensures
        r == float_mle(a, b),
{
    let a_nan = crate::value::float_is_nan(a);
    let b_nan = crate::value::float_is_nan(b);
    if a_nan || b_nan {
        a_nan && b_nan
    } else if (a == 0 && b == SIGN_BIT) || (a == SIGN_BIT && b == 0) {
        false
    } else {
        match order_float_bits(a, b) {
            Order::Greater => false,
            _ => true,
        }
    }
}

impl Value {
    /// Whether `self` is at most `other` in the meaningful partial order.
    #[verifier::loop_isolation(false)]
    pub fn meaningful_le(&self, other: &Value) -> (r: bool)
        requires
            self.wf(),
            other.wf(),
        ensures
            r == mle(self@, other@),
        decreases self,
    {
        match (self, other) {
            (Value::Nil, Value::Nil) => true,
            (Value::Bool(x), Value::Bool(y)) => !*x || *y,
            (Value::Float(x), Value::Float(y)) => {
                proof {
                    lemma_float_mle_normal(*x, *y);
                }
                float_le(*x, *y)
            },
            (Value::Int(x), Value::Int(y)) => *x <= *y,
            (Value::Array(x), Value::Array(y)) => {
                let ghost tx = trees(x@);
                let ghost ty = trees(y@);
                assert(self@ == Tree::Array(tx) && other@ == Tree::Array(ty));
                assert(mle(self@, other@) == (tx.len() <= ty.len() && forall|i: int|
                    0 <= i < tx.len() ==> mle(#[trigger] tx[i], ty[i])));
                assert(self@.wf() == (forall|j: int| 0 <= j < tx.len() ==> (#[trigger] tx[j]).wf()));
                assert(other@.wf() == (forall|j: int|
                    0 <= j < ty.len() ==> (#[trigger] ty[j]).wf()));
                if x.len() > y.len() {
                    return false;
                }
                let mut i: usize = 0;
                while i < x.len()
                    invariant
                        0 <= i <= x.len(),
                        forall|j: int| 0 <= j < i ==> mle(#[trigger] tx[j], ty[j]),
                    decreases x.len() - i,
                {
                    assert(tx[i as int] == x@[i as int]@ && ty[i as int] == y@[i as int]@);
                    assert(tx[i as int].wf() && ty[i as int].wf());
                    if !x[i].meaningful_le(&y[i]) {
                        return false;
                    }
                    i = i + 1;
                }
                true
            },
            (Value::Mapping(x), Value::Mapping(y)) => {
                let ghost tx = tree_entries(x@);
                let ghost ty = tree_entries(y@);
                assert(self@ == Tree::Mapping(tx) && other@ == Tree::Mapping(ty));
                assert(mle(self@, other@) == (forall|i: int|
                    0 <= i < tx.len() ==> entry_mle(#[trigger] tx[i], ty)));
                assert(self@.wf() == crate::order::entries_wf(tx));
                assert(other@.wf() == crate::order::entries_wf(ty));
                let mut i: usize = 0;
                while i < x.len()
                    invariant
                        0 <= i <= x.len(),
                        forall|j: int| 0 <= j < i ==> entry_mle(#[trigger] tx[j], ty),
                    decreases x.len() - i,
                {
                    assert(tx[i as int] == (x@[i as int].0@, x@[i as int].1@));
                    assert(tx[i as int].0.wf() && tx[i as int].1.wf());
                    match find_key(y, &x[i].0) {
                        None => {
                            assert(!entry_mle(tx[i as int], ty));
                            return false;
                        },
                        Some(j) => {
                            assert(ty[j as int] == (y@[j as int].0@, y@[j as int].1@));
                            assert(ty[j as int].0.wf() && ty[j as int].1.wf());
                            assert(is_key_index(ty, tx[i as int].0, j as int));
                            if !x[i].1.meaningful_le(&y[j].1) {
                                proof {
                                    if entry_mle(tx[i as int], ty) {
                                        let k = choose|k: int|
                                            0 <= k < ty.len() && (#[trigger] ty[k]).0 == tx[i as int].0
                                                && mle(tx[i as int].1, ty[k].1);
                                        lemma_key_unique(ty, k, j as int);
                                    }
                                }
                                return false;
                            }
                        },
                    }
                    i = i + 1;
                }
                true
            },
            _ => false,
        }
    }
}

/// Taking the one NaN for every NaN does not change whether a float is at most another.
pub proof fn lemma_float_mle_normal(a: u64, b: u64)
    ensures
        float_mle(crate::value::normal_bits(a), crate::value::normal_bits(b)) == float_mle(a, b),
{
    assert(crate::value::NAN_BITS % SIGN_BIT == 0x7FFF_FFFF_FFFF_FFFFu64);
}

} // verus!

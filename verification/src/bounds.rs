//! Greatest lower bounds and least upper bounds in the meaningful partial order.
use crate::entries::{insert, insert_entry, lemma_insert_wf};
use crate::meaningful::{float_le, float_mle, lemma_float_mle_normal};
use crate::order::{entries_wf, find_key, key_below, key_index, keys_ascend};
use crate::value::{tree_entries, trees, Tree, Value};
use vstd::prelude::*;

verus! {

/// The lesser of two comparable floats.
pub open spec fn float_glb(a: u64, b: u64) -> Option<u64> {
    if float_mle(a, b) {
        Some(a)
    } else if float_mle(b, a) {
        Some(b)
    } else {
        None
    }
}

/// The greater of two comparable floats.
pub open spec fn float_lub(a: u64, b: u64) -> Option<u64> {
    if float_mle(a, b) {
        Some(b)
    } else if float_mle(b, a) {
        Some(a)
    } else {
        None
    }
}

/// The greatest lower bound of two values, taken part by part: `and` of bools, the lesser of
/// two ints or of two comparable floats; of two arrays, the bounds of their items up to the
/// shorter length; of two maps, the common keys, each with the bound of its two values.
/// There is none for values of unlike variants, for floats that are not comparable, or where
/// a part has none.
pub open spec fn glb(a: Tree, b: Tree) -> Option<Tree>
    decreases a, 0nat, 0nat,
{
    match (a, b) {
        (Tree::Nil, Tree::Nil) => Some(Tree::Nil),
        (Tree::Bool(x), Tree::Bool(y)) => Some(Tree::Bool(x && y)),
        (Tree::Float(x), Tree::Float(y)) => match float_glb(x, y) {
            Some(f) => Some(Tree::Float(f)),
            None => None,
        },
        (Tree::Int(x), Tree::Int(y)) => Some(
            Tree::Int(
                if x <= y {
                    x
                } else {
                    y
                },
            ),
        ),
        (Tree::Array(x), Tree::Array(y)) => match glb_items(
            x,
            y,
            if x.len() <= y.len() {
                x.len()
            } else {
                y.len()
            },
        ) {
            Some(s) => Some(Tree::Array(s)),
            None => None,
        },
        (Tree::Mapping(x), Tree::Mapping(y)) => match glb_entries(x, y, x.len()) {
            Some(s) => Some(Tree::Mapping(s)),
            None => None,
        },
        _ => None,
    }
}

/// The greatest lower bounds of the first `n` items of two arrays.
pub open spec fn glb_items(x: Seq<Tree>, y: Seq<Tree>, n: nat) -> Option<Seq<Tree>>
    decreases x, 1nat, n,
{
    if n == 0 || n > x.len() || n > y.len() {
        Some(Seq::empty())
    } else {
        match (glb_items(x, y, (n - 1) as nat), glb(x[n - 1], y[n - 1])) {
            (Some(s), Some(t)) => Some(s.push(t)),
            _ => None,
        }
    }
}

/// Those of the first `n` entries of `x` whose key is a key of `y`, each with the greatest
/// lower bound of the two values.
pub open spec fn glb_entries(x: Seq<(Tree, Tree)>, y: Seq<(Tree, Tree)>, n: nat) -> Option<
    Seq<(Tree, Tree)>,
>
    decreases x, 1nat, n,
{
    if n == 0 || n > x.len() {
        Some(Seq::empty())
    } else {
        match glb_entries(x, y, (n - 1) as nat) {
            None => None,
            Some(s) => match key_index(y, x[n - 1].0) {
                None => Some(s),
                Some(j) => match glb(x[n - 1].1, y[j].1) {
                    Some(t) => Some(s.push((x[n - 1].0, t))),
                    None => None,
                },
            },
        }
    }
}

/// The least upper bound of two values, taken part by part: `or` of bools, the greater of
/// two ints or of two comparable floats; of two arrays, the bounds of their items, and past
/// the shorter length the items of the longer; of two maps, all keys of both, a common key
/// with the bound of its two values. There is none for values of unlike variants, for floats
/// that are not comparable, or where a part has none.
pub open spec fn lub(a: Tree, b: Tree) -> Option<Tree>
    decreases a, 0nat, 0nat,
{
    match (a, b) {
        (Tree::Nil, Tree::Nil) => Some(Tree::Nil),
        (Tree::Bool(x), Tree::Bool(y)) => Some(Tree::Bool(x || y)),
        (Tree::Float(x), Tree::Float(y)) => match float_lub(x, y) {
            Some(f) => Some(Tree::Float(f)),
            None => None,
        },
        (Tree::Int(x), Tree::Int(y)) => Some(
            Tree::Int(
                if x <= y {
                    y
                } else {
                    x
                },
            ),
        ),
        (Tree::Array(x), Tree::Array(y)) => match lub_items(
            x,
            y,
            if x.len() <= y.len() {
                y.len()
            } else {
                x.len()
            },
        ) {
            Some(s) => Some(Tree::Array(s)),
            None => None,
        },
        (Tree::Mapping(x), Tree::Mapping(y)) => match lub_entries(x, y, x.len()) {
            Some(s) => Some(Tree::Mapping(add_missing(s, x, y, y.len()))),
            None => None,
        },
        _ => None,
    }
}

/// The least upper bounds of the first `n` items of two arrays; where only one array has an
/// item, that item.
pub open spec fn lub_items(x: Seq<Tree>, y: Seq<Tree>, n: nat) -> Option<Seq<Tree>>
    decreases x, 1nat, n,
{
    if n == 0 || (n > x.len() && n > y.len()) {
        Some(Seq::empty())
    } else {
        match lub_items(x, y, (n - 1) as nat) {
            None => None,
            Some(s) => if n <= x.len() && n <= y.len() {
                match lub(x[n - 1], y[n - 1]) {
                    Some(t) => Some(s.push(t)),
                    None => None,
                }
            } else if n <= x.len() {
                Some(s.push(x[n - 1]))
            } else {
                Some(s.push(y[n - 1]))
            },
        }
    }
}

/// The first `n` entries of `x`, the value of a key that is also a key of `y` replaced by the
/// least upper bound of the two values.
pub open spec fn lub_entries(x: Seq<(Tree, Tree)>, y: Seq<(Tree, Tree)>, n: nat) -> Option<
    Seq<(Tree, Tree)>,
>
    decreases x, 1nat, n,
{
    if n == 0 || n > x.len() {
        Some(Seq::empty())
    } else {
        match lub_entries(x, y, (n - 1) as nat) {
            None => None,
            Some(s) => match key_index(y, x[n - 1].0) {
                None => Some(s.push(x[n - 1])),
                Some(j) => match lub(x[n - 1].1, y[j].1) {
                    Some(t) => Some(s.push((x[n - 1].0, t))),
                    None => None,
                },
            },
        }
    }
}

/// `acc` with those of the first `n` entries of `y` added whose key is no key of `x`.
pub open spec fn add_missing(
    acc: Seq<(Tree, Tree)>,
    x: Seq<(Tree, Tree)>,
    y: Seq<(Tree, Tree)>,
    n: nat,
) -> Seq<(Tree, Tree)>
    decreases n,
{
    if n == 0 || n > y.len() {
        acc
    } else {
        let before = add_missing(acc, x, y, (n - 1) as nat);
        if key_index(x, y[n - 1].0).is_none() {
            insert(before, y[n - 1].0, y[n - 1].1)
        } else {
            before
        }
    }
}

/// The bounds of valid values are valid.
pub proof fn lemma_bounds_wf(a: Tree, b: Tree)
    requires
        a.wf(),
        b.wf(),
    ensures
        glb(a, b).is_some() ==> glb(a, b).unwrap().wf(),
        lub(a, b).is_some() ==> lub(a, b).unwrap().wf(),
    decreases a, 0nat, 0nat,
{
    match (a, b) {
        (Tree::Array(x), Tree::Array(y)) => {
            assert(a.wf() == (forall|j: int| 0 <= j < x.len() ==> (#[trigger] x[j]).wf()));
            assert(b.wf() == (forall|j: int| 0 <= j < y.len() ==> (#[trigger] y[j]).wf()));
            let lo = if x.len() <= y.len() {
                x.len()
            } else {
                y.len()
            };
            let hi = if x.len() <= y.len() {
                y.len()
            } else {
                x.len()
            };
            lemma_items_wf(x, y, lo);
            lemma_items_wf(x, y, hi);
            if glb(a, b).is_some() {
                let s = glb_items(x, y, lo).unwrap();
                assert(glb(a, b).unwrap() == Tree::Array(s));
                assert(Tree::Array(s).wf() == (forall|j: int|
                    0 <= j < s.len() ==> (#[trigger] s[j]).wf()));
            }
            if lub(a, b).is_some() {
                let s = lub_items(x, y, hi).unwrap();
                assert(lub(a, b).unwrap() == Tree::Array(s));
                assert(Tree::Array(s).wf() == (forall|j: int|
                    0 <= j < s.len() ==> (#[trigger] s[j]).wf()));
            }
        },
        (Tree::Mapping(x), Tree::Mapping(y)) => {
            assert(a.wf() == entries_wf(x));
            assert(b.wf() == entries_wf(y));
            lemma_entries_bounds_wf(x, y, x.len());
            if glb(a, b).is_some() {
                let s = glb_entries(x, y, x.len()).unwrap();
                assert(glb(a, b).unwrap() == Tree::Mapping(s));
                assert(Tree::Mapping(s).wf() == entries_wf(s));
            }
            if lub(a, b).is_some() {
                let s = lub_entries(x, y, x.len()).unwrap();
                lemma_add_missing_wf(s, x, y, y.len());
                let r = add_missing(s, x, y, y.len());
                assert(lub(a, b).unwrap() == Tree::Mapping(r));
                assert(Tree::Mapping(r).wf() == entries_wf(r));
            }
        },
        (Tree::Float(x), Tree::Float(y)) => {},
        _ => {},
    }
}

proof fn lemma_items_wf(x: Seq<Tree>, y: Seq<Tree>, n: nat)
    requires
        forall|j: int| 0 <= j < x.len() ==> (#[trigger] x[j]).wf(),
        forall|j: int| 0 <= j < y.len() ==> (#[trigger] y[j]).wf(),
    ensures
        glb_items(x, y, n).is_some() ==> forall|j: int|
            0 <= j < glb_items(x, y, n).unwrap().len() ==> (#[trigger] glb_items(
                x,
                y,
                n,
            ).unwrap()[j]).wf(),
        lub_items(x, y, n).is_some() ==> forall|j: int|
            0 <= j < lub_items(x, y, n).unwrap().len() ==> (#[trigger] lub_items(
                x,
                y,
                n,
            ).unwrap()[j]).wf(),
    decreases x, 1nat, n,
{
    if n > 0 {
        lemma_items_wf(x, y, (n - 1) as nat);
        if n <= x.len() && n <= y.len() {
            assert(x[n - 1].wf() && y[n - 1].wf());
            lemma_bounds_wf(x[n - 1], y[n - 1]);
        } else if n <= x.len() {
            assert(x[n - 1].wf());
        } else if n <= y.len() {
            assert(y[n - 1].wf());
        }
    }
}

/// Each key of `s` is the key of one of the first `n` entries of `x`.
pub open spec fn keys_from(s: Seq<(Tree, Tree)>, x: Seq<(Tree, Tree)>, n: nat) -> bool {
    forall|k: int|
        0 <= k < s.len() ==> exists|i: int| 0 <= i < n && i < x.len() && x[i].0 == (#[trigger] s[k]).0
}

proof fn lemma_push_wf(s: Seq<(Tree, Tree)>, x: Seq<(Tree, Tree)>, n: nat, value: Tree)
    requires
        0 < n <= x.len(),
        entries_wf(x),
        entries_wf(s),
        keys_from(s, x, (n - 1) as nat),
        value.wf(),
    ensures
        entries_wf(s.push((x[n - 1].0, value))),
        keys_from(s.push((x[n - 1].0, value)), x, n),
{
    let r = s.push((x[n - 1].0, value));
    assert forall|i: int, j: int| 0 <= i < j < r.len() implies #[trigger] key_below(r, i, j) by {
        if j < s.len() {
            assert(key_below(s, i, j));
        } else {
            let w = choose|w: int| 0 <= w < n - 1 && w < x.len() && x[w].0 == s[i].0;
            assert(key_below(x, w, n - 1));
        }
    }
    assert(x[n - 1].0.wf());
    assert forall|k: int| 0 <= k < r.len() implies (#[trigger] r[k]).0.wf() && r[k].1.wf() by {
        if k < s.len() {
            assert(s[k].0.wf());
        }
    }
    assert forall|k: int| 0 <= k < r.len() implies exists|i: int|
        0 <= i < n && i < x.len() && x[i].0 == (#[trigger] r[k]).0 by {
        if k < s.len() {
            let w = choose|w: int| 0 <= w < n - 1 && w < x.len() && x[w].0 == s[k].0;
            assert(x[w].0 == r[k].0);
        } else {
            assert(x[n - 1].0 == r[k].0);
        }
    }
}

/// The joined entries of valid maps are those of a valid map.
pub proof fn lemma_joined_entries_wf(x: Seq<(Tree, Tree)>, y: Seq<(Tree, Tree)>, n: nat)
    requires
        entries_wf(x),
        entries_wf(y),
        n <= x.len(),
    ensures
        lub_entries(x, y, n).is_some() ==> entries_wf(lub_entries(x, y, n).unwrap()),
{
    lemma_entries_bounds_wf(x, y, n);
}

proof fn lemma_entries_bounds_wf(x: Seq<(Tree, Tree)>, y: Seq<(Tree, Tree)>, n: nat)
    requires
        entries_wf(x),
        entries_wf(y),
        n <= x.len(),
    ensures
        glb_entries(x, y, n).is_some() ==> entries_wf(glb_entries(x, y, n).unwrap()) && keys_from(
            glb_entries(x, y, n).unwrap(),
            x,
            n,
        ),
        lub_entries(x, y, n).is_some() ==> entries_wf(lub_entries(x, y, n).unwrap()) && keys_from(
            lub_entries(x, y, n).unwrap(),
            x,
            n,
        ),
    decreases x, 1nat, n,
{
    if n > 0 {
        lemma_entries_bounds_wf(x, y, (n - 1) as nat);
        assert(x[n - 1].0.wf() && x[n - 1].1.wf());
        let ki = key_index(y, x[n - 1].0);
        if ki.is_some() {
            let j = ki.unwrap();
            assert(crate::order::is_key_index(y, x[n - 1].0, j));
            assert(y[j].0.wf() && y[j].1.wf());
            lemma_bounds_wf(x[n - 1].1, y[j].1);
        }
        if glb_entries(x, y, (n - 1) as nat).is_some() {
            let s = glb_entries(x, y, (n - 1) as nat).unwrap();
            if ki.is_some() {
                let g = glb(x[n - 1].1, y[ki.unwrap()].1);
                if g.is_some() {
                    lemma_push_wf(s, x, n, g.unwrap());
                }
            } else {
                assert forall|k: int| 0 <= k < s.len() implies exists|i: int|
                    0 <= i < n && i < x.len() && x[i].0 == (#[trigger] s[k]).0 by {
                    let w = choose|w: int| 0 <= w < n - 1 && w < x.len() && x[w].0 == s[k].0;
                    assert(x[w].0 == s[k].0);
                }
            }
        }
        if lub_entries(x, y, (n - 1) as nat).is_some() {
            let s = lub_entries(x, y, (n - 1) as nat).unwrap();
            if ki.is_some() {
                let g = lub(x[n - 1].1, y[ki.unwrap()].1);
                if g.is_some() {
                    lemma_push_wf(s, x, n, g.unwrap());
                }
            } else {
                lemma_push_wf(s, x, n, x[n - 1].1);
            }
        }
    } else {
        assert(keys_ascend(Seq::<(Tree, Tree)>::empty()));
    }
}

proof fn lemma_add_missing_wf(
    acc: Seq<(Tree, Tree)>,
    x: Seq<(Tree, Tree)>,
    y: Seq<(Tree, Tree)>,
    n: nat,
)
    requires
        entries_wf(acc),
        entries_wf(y),
    ensures
        entries_wf(add_missing(acc, x, y, n)),
    decreases n,
{
    if n > 0 && n <= y.len() {
        lemma_add_missing_wf(acc, x, y, (n - 1) as nat);
        assert(y[n - 1].0.wf() && y[n - 1].1.wf());
        lemma_insert_wf(add_missing(acc, x, y, (n - 1) as nat), y[n - 1].0, y[n - 1].1);
    }
}

/// Where the bounds of the first `k` parts are missing, so are those of the first `n`.
proof fn lemma_items_none(x: Seq<Tree>, y: Seq<Tree>, k: nat, n: nat)
    requires
        k <= n,
        n <= x.len() || n <= y.len(),
    ensures
        glb_items(x, y, k).is_none() && n <= x.len() && n <= y.len() ==> glb_items(
            x,
            y,
            n,
        ).is_none(),
        lub_items(x, y, k).is_none() ==> lub_items(x, y, n).is_none(),
    decreases n,
{
    if k < n {
        lemma_items_none(x, y, k, (n - 1) as nat);
    }
}

proof fn lemma_entries_none(x: Seq<(Tree, Tree)>, y: Seq<(Tree, Tree)>, k: nat, n: nat)
    requires
        k <= n <= x.len(),
    ensures
        glb_entries(x, y, k).is_none() ==> glb_entries(x, y, n).is_none(),
        lub_entries(x, y, k).is_none() ==> lub_entries(x, y, n).is_none(),
    decreases n,
{
    if k < n {
        lemma_entries_none(x, y, k, (n - 1) as nat);
    }
}

impl Value {
    /// The greatest lower bound of two values in the meaningful partial order, if the values
    /// have one (see [`glb`]).
    #[verifier::loop_isolation(false)]
    pub fn greatest_lower_bound(&self, other: &Self) -> (r: Option<Self>)
        requires
            self.wf(),
            other.wf(),
        ensures
            match r {
                Some(v) => glb(self@, other@) == Some(v@) && v.wf(),
                None => glb(self@, other@).is_none(),
            },
        decreases self,
    {
        proof {
            lemma_bounds_wf(self@, other@);
        }
        match (self, other) {
            (Value::Nil, Value::Nil) => Some(Value::Nil),
            (Value::Bool(x), Value::Bool(y)) => Some(Value::Bool(*x && *y)),
            (Value::Float(x), Value::Float(y)) => {
                proof {
                    lemma_float_mle_normal(*x, *y);
                    lemma_float_mle_normal(*y, *x);
                }
                if float_le(*x, *y) {
                    Some(Value::Float(*x))
                } else if float_le(*y, *x) {
                    Some(Value::Float(*y))
                } else {
                    None
                }
            },
            (Value::Int(x), Value::Int(y)) => Some(
                Value::Int(
                    if *x <= *y {
                        *x
                    } else {
                        *y
                    },
                ),
            ),
            (Value::Array(x), Value::Array(y)) => {
                let ghost tx = trees(x@);
                let ghost ty = trees(y@);
                assert(self@ == Tree::Array(tx) && other@ == Tree::Array(ty));
                assert(self@.wf() == (forall|j: int| 0 <= j < tx.len() ==> (#[trigger] tx[j]).wf()));
                assert(other@.wf() == (forall|j: int|
                    0 <= j < ty.len() ==> (#[trigger] ty[j]).wf()));
                let n = if x.len() <= y.len() {
                    x.len()
                } else {
                    y.len()
                };
                let mut out: Vec<Value> = Vec::with_capacity(n);
                let mut i: usize = 0;
                while i < n
                    invariant
                        0 <= i <= n,
                        glb_items(tx, ty, i as nat) == Some(trees(out@)),
                    decreases n - i,
                {
                    assert(tx[i as int] == x@[i as int]@ && ty[i as int] == y@[i as int]@);
                    assert(tx[i as int].wf() && ty[i as int].wf());
                    match x[i].greatest_lower_bound(&y[i]) {
                        None => {
                            proof {
                                assert(glb_items(tx, ty, (i + 1) as nat).is_none());
                                lemma_items_none(tx, ty, (i + 1) as nat, n as nat);
                            }
                            return None;
                        },
                        Some(v) => {
                            let ghost before = trees(out@);
                            out.push(v);
                            assert(trees(out@) =~= before.push(v@));
                        },
                    }
                    i = i + 1;
                }
                Some(Value::Array(out))
            },
            (Value::Mapping(x), Value::Mapping(y)) => {
                let ghost tx = tree_entries(x@);
                let ghost ty = tree_entries(y@);
                assert(self@ == Tree::Mapping(tx) && other@ == Tree::Mapping(ty));
                assert(self@.wf() == entries_wf(tx));
                assert(other@.wf() == entries_wf(ty));
                let mut out: Vec<(Value, Value)> = Vec::new();
                let mut i: usize = 0;
                while i < x.len()
                    invariant
                        0 <= i <= x.len(),
                        glb_entries(tx, ty, i as nat) == Some(tree_entries(out@)),
                    decreases x.len() - i,
                {
                    assert(tx[i as int] == (x@[i as int].0@, x@[i as int].1@));
                    assert(tx[i as int].0.wf() && tx[i as int].1.wf());
                    match find_key(y, &x[i].0) {
                        None => {},
                        Some(j) => {
                            assert(ty[j as int] == (y@[j as int].0@, y@[j as int].1@));
                            assert(ty[j as int].0.wf() && ty[j as int].1.wf());
                            match x[i].1.greatest_lower_bound(&y[j].1) {
                                None => {
                                    proof {
                                        assert(glb_entries(tx, ty, (i + 1) as nat).is_none());
                                        lemma_entries_none(tx, ty, (i + 1) as nat, x.len() as nat);
                                    }
                                    return None;
                                },
                                Some(v) => {
                                    let ghost before = tree_entries(out@);
                                    let k = x[i].0.clone();
                                    out.push((k, v));
                                    assert(tree_entries(out@) =~= before.push((tx[i as int].0, v@)));
                                },
                            }
                        },
                    }
                    i = i + 1;
                }
                Some(Value::Mapping(out))
            },
            _ => None,
        }
    }

    /// The least upper bound of two values in the meaningful partial order, if the values
    /// have one (see [`lub`]).
    #[verifier::loop_isolation(false)]
    pub fn least_upper_bound(&self, other: &Self) -> (r: Option<Self>)
        requires
            self.wf(),
            other.wf(),
        ensures
            match r {
                Some(v) => lub(self@, other@) == Some(v@) && v.wf(),
                None => lub(self@, other@).is_none(),
            },
        decreases self,
    {
        proof {
            lemma_bounds_wf(self@, other@);
        }
        match (self, other) {
            (Value::Nil, Value::Nil) => Some(Value::Nil),
            (Value::Bool(x), Value::Bool(y)) => Some(Value::Bool(*x || *y)),
            (Value::Float(x), Value::Float(y)) => {
                proof {
                    lemma_float_mle_normal(*x, *y);
                    lemma_float_mle_normal(*y, *x);
                }
                if float_le(*x, *y) {
                    Some(Value::Float(*y))
                } else if float_le(*y, *x) {
                    Some(Value::Float(*x))
                } else {
                    None
                }
            },
            (Value::Int(x), Value::Int(y)) => Some(
                Value::Int(
                    if *x <= *y {
                        *y
                    } else {
                        *x
                    },
                ),
            ),
            (Value::Array(x), Value::Array(y)) => {
                let ghost tx = trees(x@);
                let ghost ty = trees(y@);
                assert(self@ == Tree::Array(tx) && other@ == Tree::Array(ty));
                assert(self@.wf() == (forall|j: int| 0 <= j < tx.len() ==> (#[trigger] tx[j]).wf()));
                assert(other@.wf() == (forall|j: int|
                    0 <= j < ty.len() ==> (#[trigger] ty[j]).wf()));
                let n = if x.len() <= y.len() {
                    y.len()
                } else {
                    x.len()
                };
                let mut out: Vec<Value> = Vec::with_capacity(n);
                let mut i: usize = 0;
                while i < n
                    invariant
                        0 <= i <= n,
                        lub_items(tx, ty, i as nat) == Some(trees(out@)),
                    decreases n - i,
                {
                    let ghost before = trees(out@);
                    if i < x.len() && i < y.len() {
                        assert(tx[i as int] == x@[i as int]@ && ty[i as int] == y@[i as int]@);
                        assert(tx[i as int].wf() && ty[i as int].wf());
                        match x[i].least_upper_bound(&y[i]) {
                            None => {
                                proof {
                                    assert(lub_items(tx, ty, (i + 1) as nat).is_none());
                                    lemma_items_none(tx, ty, (i + 1) as nat, n as nat);
                                }
                                return None;
                            },
                            Some(v) => {
                                out.push(v);
                                assert(trees(out@) =~= before.push(v@));
                            },
                        }
                    } else if i < x.len() {
                        assert(tx[i as int] == x@[i as int]@);
                        out.push(x[i].clone());
                        assert(trees(out@) =~= before.push(tx[i as int]));
                    } else {
                        assert(ty[i as int] == y@[i as int]@);
                        out.push(y[i].clone());
                        assert(trees(out@) =~= before.push(ty[i as int]));
                    }
                    i = i + 1;
                }
                Some(Value::Array(out))
            },
            (Value::Mapping(x), Value::Mapping(y)) => {
                let ghost tx = tree_entries(x@);
                let ghost ty = tree_entries(y@);
                assert(self@ == Tree::Mapping(tx) && other@ == Tree::Mapping(ty));
                assert(self@.wf() == entries_wf(tx));
                assert(other@.wf() == entries_wf(ty));
                let mut out: Vec<(Value, Value)> = Vec::with_capacity(x.len());
                let mut i: usize = 0;
                while i < x.len()
                    invariant
                        0 <= i <= x.len(),
                        lub_entries(tx, ty, i as nat) == Some(tree_entries(out@)),
                    decreases x.len() - i,
                {
                    assert(tx[i as int] == (x@[i as int].0@, x@[i as int].1@));
                    assert(tx[i as int].0.wf() && tx[i as int].1.wf());
                    let ghost before = tree_entries(out@);
                    match find_key(y, &x[i].0) {
                        None => {
                            let k = x[i].0.clone();
                            let v = x[i].1.clone();
                            out.push((k, v));
                            assert(tree_entries(out@) =~= before.push(tx[i as int]));
                        },
                        Some(j) => {
                            assert(ty[j as int] == (y@[j as int].0@, y@[j as int].1@));
                            assert(ty[j as int].0.wf() && ty[j as int].1.wf());
                            match x[i].1.least_upper_bound(&y[j].1) {
                                None => {
                                    proof {
                                        assert(lub_entries(tx, ty, (i + 1) as nat).is_none());
                                        lemma_entries_none(tx, ty, (i + 1) as nat, x.len() as nat);
                                    }
                                    return None;
                                },
                                Some(v) => {
                                    let k = x[i].0.clone();
                                    out.push((k, v));
                                    assert(tree_entries(out@) =~= before.push((tx[i as int].0, v@)));
                                },
                            }
                        },
                    }
                    i = i + 1;
                }
                let ghost joined = tree_entries(out@);
                let mut j: usize = 0;
                while j < y.len()
                    invariant
                        0 <= j <= y.len(),
                        tree_entries(out@) == add_missing(joined, tx, ty, j as nat),
                    decreases y.len() - j,
                {
                    assert(ty[j as int] == (y@[j as int].0@, y@[j as int].1@));
                    match find_key(x, &y[j].0) {
                        None => {
                            let k = y[j].0.clone();
                            let v = y[j].1.clone();
                            insert_entry(&mut out, k, v);
                        },
                        Some(_) => {},
                    }
                    j = j + 1;
                }
                Some(Value::Mapping(out))
            },
            _ => None,
        }
    }
}

} // verus!

//! The total order on values.
use crate::value::{is_nan, tree_entries, trees, Tree, Value, INF_BITS, SIGN_BIT};
use vstd::prelude::*;

verus! {

/// The outcome of a comparison.
#[derive(Clone, Copy, Debug, PartialEq, Eq, Structural)]
pub enum Order {
    Less,
    Equal,
    Greater,
}

impl Order {
    /// The outcome with the two sides exchanged.
    pub open spec fn flip(self) -> Order {
        match self {
            Order::Less => Order::Greater,
            Order::Equal => Order::Equal,
            Order::Greater => Order::Less,
        }
    }
}

/// The order of two integers.
pub open spec fn int_order(a: int, b: int) -> Order {
    if a < b {
        Order::Less
    } else if a == b {
        Order::Equal
    } else {
        Order::Greater
    }
}

/// An integer that orders the floats other than NaN as IEEE-754's total order does:
/// negative floats below zero (the larger the magnitude, the lower), -0 at -1, +0 at 0.
pub open spec fn float_key(bits: u64) -> int {
    if bits < SIGN_BIT {
        bits as int
    } else {
        SIGN_BIT - bits - 1
    }
}

/// The order of two floats, given by their bits: NaN is least, and all NaNs are equal.
pub open spec fn float_order(a: u64, b: u64) -> Order {
    if is_nan(a) && is_nan(b) {
        Order::Equal
    } else if is_nan(a) {
        Order::Less
    } else if is_nan(b) {
        Order::Greater
    } else {
        int_order(float_key(a), float_key(b))
    }
}

/// The place of a value's variant among the variants.
pub open spec fn rank(t: Tree) -> int {
    match t {
        Tree::Nil => 0,
        Tree::Bool(_) => 1,
        Tree::Float(_) => 2,
        Tree::Int(_) => 3,
        Tree::Array(_) => 4,
        Tree::Mapping(_) => 5,
    }
}

/// The total order on values: by variant first (nil, bool, float, int, array, map); false
/// before true; floats by `float_order`; ints by number; arrays item by item, a proper prefix
/// before the longer array; maps entry by entry, see `entry_order`.
pub open spec fn order(a: Tree, b: Tree) -> Order
    decreases a, 0nat,
{
    match (a, b) {
        (Tree::Nil, Tree::Nil) => Order::Equal,
        (Tree::Bool(x), Tree::Bool(y)) => int_order(
            if x {
                1
            } else {
                0
            },
            if y {
                1
            } else {
                0
            },
        ),
        (Tree::Float(x), Tree::Float(y)) => float_order(x, y),
        (Tree::Int(x), Tree::Int(y)) => int_order(x as int, y as int),
        (Tree::Array(x), Tree::Array(y)) => array_order(x, y, 0),
        (Tree::Mapping(x), Tree::Mapping(y)) => entries_order(x, y, 0),
        _ => int_order(rank(a), rank(b)),
    }
}

/// The order of two arrays from index `i` on.
pub open spec fn array_order(x: Seq<Tree>, y: Seq<Tree>, i: int) -> Order
    decreases x, x.len() - i,
{
    if i < 0 {
        Order::Equal
    } else if i >= x.len() {
        if i >= y.len() {
            Order::Equal
        } else {
            Order::Less
        }
    } else if i >= y.len() {
        Order::Greater
    } else {
        match order(x[i], y[i]) {
            Order::Equal => array_order(x, y, i + 1),
            o => o,
        }
    }
}

/// The order of two map entries: the entry with the greater key is the lesser entry; with
/// equal keys the values decide. (So a map that lacks another map's least key, and is
/// otherwise the same, is the lesser map.)
pub open spec fn entry_order(a: (Tree, Tree), b: (Tree, Tree)) -> Order
    decreases a, 0nat,
{
    match order(a.0, b.0) {
        Order::Less => Order::Greater,
        Order::Greater => Order::Less,
        Order::Equal => order(a.1, b.1),
    }
}

/// The order of two maps, given by their entries, from index `i` on.
pub open spec fn entries_order(x: Seq<(Tree, Tree)>, y: Seq<(Tree, Tree)>, i: int) -> Order
    decreases x, x.len() - i,
{
    if i < 0 {
        Order::Equal
    } else if i >= x.len() {
        if i >= y.len() {
            Order::Equal
        } else {
            Order::Less
        }
    } else if i >= y.len() {
        Order::Greater
    } else {
        match entry_order(x[i], y[i]) {
            Order::Equal => entries_order(x, y, i + 1),
            o => o,
        }
    }
}

/// `a` is at most `b` in the total order.
pub open spec fn le(a: Tree, b: Tree) -> bool {
    order(a, b) != Order::Greater
}

/// `a` is strictly below `b` in the total order.
pub open spec fn lt(a: Tree, b: Tree) -> bool {
    order(a, b) == Order::Less
}

/// The order of two machine integers.
pub fn order_i64(a: i64, b: i64) -> (r: Order)
    ensures
        r == int_order(a as int, b as int),
{
    if a < b {
        Order::Less
    } else if a == b {
        Order::Equal
    } else {
        Order::Greater
    }
}

/// The order of two floats, given by their bits.
pub fn order_float_bits(a: u64, b: u64) -> (r: Order)
    ensures
        r == float_order(a, b),
{
    let a_nan = a % SIGN_BIT > INF_BITS;
    let b_nan = b % SIGN_BIT > INF_BITS;
    if a_nan && b_nan {
        Order::Equal
    } else if a_nan {
        Order::Less
    } else if b_nan {
        Order::Greater
    } else if a < SIGN_BIT {
        if b < SIGN_BIT {
            if a < b {
                Order::Less
            } else if a == b {
                Order::Equal
            } else {
                Order::Greater
            }
        } else {
            Order::Greater
        }
    } else if b < SIGN_BIT {
        Order::Less
    } else if a > b {
        Order::Less
    } else if a == b {
        Order::Equal
    } else {
        Order::Greater
    }
}

impl Value {
    /// Compares two values in the total order.
    #[verifier::loop_isolation(false)]
    pub fn total_order(&self, other: &Value) -> (r: Order)
        ensures
            r == order(self@, other@),
        decreases self,
    {
        match (self, other) {
            (Value::Nil, Value::Nil) => Order::Equal,
            (Value::Bool(x), Value::Bool(y)) => {
                if *x == *y {
                    Order::Equal
                } else if *y {
                    Order::Less
                } else {
                    Order::Greater
                }
            },
            (Value::Float(x), Value::Float(y)) => {
                proof {
                    lemma_float_order_normal(*x, *y);
                }
                order_float_bits(*x, *y)
            },
            (Value::Int(x), Value::Int(y)) => order_i64(*x, *y),
            (Value::Array(x), Value::Array(y)) => {
                let mut i: usize = 0;
                loop
                    invariant
                        0 <= i <= x.len(),
                        i <= y.len(),
                        order(self@, other@) == array_order(self@->Array_0, other@->Array_0, i as int),
                    decreases x.len() - i,
                {
                    proof {
                        assert(self@->Array_0 == trees(x@));
                        assert(other@->Array_0 == trees(y@));
                    }
                    if i >= x.len() {
                        if i >= y.len() {
                            return Order::Equal;
                        } else {
                            return Order::Less;
                        }
                    }
                    if i >= y.len() {
                        return Order::Greater;
                    }
                    let o = x[i].total_order(&y[i]);
                    proof {
                        assert(trees(x@)[i as int] == x@[i as int]@);
                        assert(trees(y@)[i as int] == y@[i as int]@);
                    }
                    match o {
                        Order::Equal => {},
                        _ => {
                            return o;
                        },
                    }
                    i = i + 1;
                }
            },
            (Value::Mapping(x), Value::Mapping(y)) => {
                let mut i: usize = 0;
                loop
                    invariant
                        0 <= i <= x.len(),
                        i <= y.len(),
                        order(self@, other@) == entries_order(
                            self@->Mapping_0,
                            other@->Mapping_0,
                            i as int,
                        ),
                    decreases x.len() - i,
                {
                    proof {
                        assert(self@->Mapping_0 == tree_entries(x@));
                        assert(other@->Mapping_0 == tree_entries(y@));
                    }
                    if i >= x.len() {
                        if i >= y.len() {
                            return Order::Equal;
                        } else {
                            return Order::Less;
                        }
                    }
                    if i >= y.len() {
                        return Order::Greater;
                    }
                    proof {
                        assert(tree_entries(x@)[i as int] == (x@[i as int].0@, x@[i as int].1@));
                        assert(tree_entries(y@)[i as int] == (y@[i as int].0@, y@[i as int].1@));
                    }
                    let k = x[i].0.total_order(&y[i].0);
                    proof {
                        let ex = tree_entries(x@)[i as int];
                        let ey = tree_entries(y@)[i as int];
                        assert(entry_order(ex, ey) == match k {
                            Order::Less => Order::Greater,
                            Order::Greater => Order::Less,
                            Order::Equal => order(ex.1, ey.1),
                        });
                    }
                    match k {
                        Order::Less => {
                            return Order::Greater;
                        },
                        Order::Greater => {
                            return Order::Less;
                        },
                        Order::Equal => {},
                    }
                    let o = x[i].1.total_order(&y[i].1);
                    match o {
                        Order::Equal => {},
                        _ => {
                            return o;
                        },
                    }
                    i = i + 1;
                }
            },
            (Value::Nil, _) => Order::Less,
            (_, Value::Nil) => Order::Greater,
            (Value::Bool(_), _) => Order::Less,
            (_, Value::Bool(_)) => Order::Greater,
            (Value::Float(_), _) => Order::Less,
            (_, Value::Float(_)) => Order::Greater,
            (Value::Int(_), _) => Order::Less,
            (_, Value::Int(_)) => Order::Greater,
            (Value::Array(_), _) => Order::Less,
            (_, Value::Array(_)) => Order::Greater,
        }
    }
}

/// The keys of the entries ascend strictly: no key occurs twice, and they stand in order.
pub open spec fn keys_ascend(es: Seq<(Tree, Tree)>) -> bool {
    forall|i: int, j: int| 0 <= i < j < es.len() ==> #[trigger] key_below(es, i, j)
}

/// The key of entry `i` is below the key of entry `j`.
pub open spec fn key_below(es: Seq<(Tree, Tree)>, i: int, j: int) -> bool {
    order(es[i].0, es[j].0) == Order::Less
}

impl Tree {
    /// The value is valid: its floats are held by their normal bits, and the entries of
    /// every map in it stand in strictly ascending order of their keys.
    pub open spec fn wf(self) -> bool
        decreases self,
    {
        match self {
            Tree::Float(bits) => crate::value::normal_bits(bits) == bits,
            Tree::Array(xs) => forall|i: int| 0 <= i < xs.len() ==> (#[trigger] xs[i]).wf(),
            Tree::Mapping(es) => keys_ascend(es) && forall|i: int|
                0 <= i < es.len() ==> (#[trigger] es[i]).0.wf() && es[i].1.wf(),
            _ => true,
        }
    }
}

/// Whether `j` is the first index of an entry with the given key.
pub open spec fn is_key_index(es: Seq<(Tree, Tree)>, key: Tree, j: int) -> bool {
    0 <= j < es.len() && es[j].0 == key && forall|k: int| 0 <= k < j ==> (#[trigger] es[k]).0 != key
}

/// The first index of an entry with the given key, if there is one.
pub open spec fn key_index(es: Seq<(Tree, Tree)>, key: Tree) -> Option<int> {
    if exists|j: int| is_key_index(es, key, j) {
        Some(choose|j: int| is_key_index(es, key, j))
    } else {
        None
    }
}

impl Value {
    /// The value is valid: the entries of every map in it stand in strictly ascending order
    /// of their keys.
    pub open spec fn wf(&self) -> bool {
        self@.wf()
    }

    /// Whether two values are equal: the same variant and the same contents, any NaN being
    /// equal to any other.
    pub fn same(&self, other: &Value) -> (r: bool)
        ensures
            r == (self@ == other@),
    {
        proof {
            crate::value::lemma_view_normal(*self);
            crate::value::lemma_view_normal(*other);
            crate::order_laws::lemma_order_equal(self@, other@);
        }
        match self.total_order(other) {
            Order::Equal => true,
            _ => false,
        }
    }

    /// Whether the value is valid (see [`Value::wf`]).
    #[verifier::loop_isolation(false)]
    pub fn is_wf(&self) -> (r: bool)
        ensures
            r == self.wf(),
        decreases self,
    {
        proof {
            crate::value::lemma_view_normal(*self);
        }
        match self {
            Value::Array(xs) => {
                let ghost t = trees(xs@);
                assert(self@ == Tree::Array(t));
                assert(self@.wf() == (forall|j: int| 0 <= j < t.len() ==> (#[trigger] t[j]).wf()));
                let mut i: usize = 0;
                while i < xs.len()
                    invariant
                        0 <= i <= xs.len(),
                        forall|j: int| 0 <= j < i ==> (#[trigger] t[j]).wf(),
                    decreases xs.len() - i,
                {
                    assert(t[i as int] == xs@[i as int]@);
                    if !xs[i].is_wf() {
                        proof {
                            if self@.wf() {
                                assert(t[i as int].wf());
                            }
                        }
                        return false;
                    }
                    i = i + 1;
                }
                true
            },
            Value::Mapping(es) => {
                let ghost t = tree_entries(es@);
                assert(self@ == Tree::Mapping(t));
                let mut i: usize = 0;
                while i < es.len()
                    invariant
                        0 <= i <= es.len(),
                        entries_wf(t.subrange(0, i as int)),
                    decreases es.len() - i,
                {
                    assert(t[i as int] == (es@[i as int].0@, es@[i as int].1@));
                    if !es[i].0.is_wf() || !es[i].1.is_wf() {
                        proof {
                            if self@.wf() {
                                assert(t[i as int].0.wf() && t[i as int].1.wf());
                            }
                        }
                        return false;
                    }
                    if i > 0 {
                        assert(t[i - 1] == (es@[i - 1].0@, es@[i - 1].1@));
                        match es[i - 1].0.total_order(&es[i].0) {
                            Order::Less => {},
                            _ => {
                                proof {
                                    if self@.wf() {
                                        assert(key_below(t, i - 1, i as int));
                                    }
                                }
                                return false;
                            },
                        }
                    }
                    proof {
                        lemma_entries_wf_extend(t, i as int);
                    }
                    i = i + 1;
                }
                assert(t.subrange(0, i as int) =~= t);
                assert(self@.wf() == entries_wf(t));
                true
            },
            _ => true,
        }
    }
}

/// The entries are those of a valid map: their keys ascend and every key and value is valid.
pub open spec fn entries_wf(es: Seq<(Tree, Tree)>) -> bool {
    keys_ascend(es) && forall|i: int|
        0 <= i < es.len() ==> (#[trigger] es[i]).0.wf() && es[i].1.wf()
}

/// A valid run of entries stays valid with one more entry whose key is above the last one's.
pub proof fn lemma_entries_wf_extend(es: Seq<(Tree, Tree)>, n: int)
    requires
        0 <= n < es.len(),
        entries_wf(es.subrange(0, n)),
        es[n].0.wf(),
        es[n].1.wf(),
        n > 0 ==> order(es[n - 1].0, es[n].0) == Order::Less,
    ensures
        entries_wf(es.subrange(0, n + 1)),
{
    let p = es.subrange(0, n);
    let q = es.subrange(0, n + 1);
    assert forall|i: int, j: int| 0 <= i < j < q.len() implies #[trigger] key_below(q, i, j) by {
        assert(q[i] == es[i] && q[j] == es[j]);
        if j < n {
            assert(p[i] == es[i] && p[j] == es[j]);
            assert(key_below(p, i, j));
        } else if i < n - 1 {
            assert(p[i] == es[i] && p[n - 1] == es[n - 1]);
            assert(key_below(p, i, n - 1));
            crate::order_laws::lemma_order_composes(es[i].0, es[n - 1].0, es[n].0);
        }
    }
    assert forall|i: int| 0 <= i < q.len() implies (#[trigger] q[i]).0.wf() && q[i].1.wf() by {
        assert(q[i] == es[i]);
        if i < n {
            assert(p[i] == es[i]);
        }
    }
}

/// Looks for the first entry with the given key.
pub fn find_key(es: &Vec<(Value, Value)>, key: &Value) -> (r: Option<usize>)
    ensures
        match r {
            Some(j) => key_index(tree_entries(es@), key@) == Some(j as int) && j < es.len(),
            None => key_index(tree_entries(es@), key@).is_none(),
        },
        key_index(tree_entries(es@), key@).is_none() ==> forall|k: int|
            0 <= k < es.len() ==> (#[trigger] tree_entries(es@)[k]).0 != key@,
{
    let ghost t = tree_entries(es@);
    let mut i: usize = 0;
    while i < es.len()
        invariant
            0 <= i <= es.len(),
            t == tree_entries(es@),
            forall|k: int| 0 <= k < i ==> (#[trigger] t[k]).0 != key@,
        decreases es.len() - i,
    {
        assert(t[i as int].0 == es@[i as int].0@);
        if es[i].0.same(key) {
            proof {
                assert(is_key_index(t, key@, i as int));
                let j = choose|j: int| is_key_index(t, key@, j);
                assert(is_key_index(t, key@, j));
                if j < i {
                    assert(t[j].0 != key@);
                }
                if i < j {
                    assert(t[i as int].0 != key@);
                }
            }
            return Some(i);
        }
        i = i + 1;
    }
    proof {
        if exists|j: int| is_key_index(t, key@, j) {
            let j = choose|j: int| is_key_index(t, key@, j);
            assert(t[j].0 != key@);
        }
    }
    None
}

/// In a run of entries whose keys ascend, a key stands at one index at most.
pub proof fn lemma_key_unique(es: Seq<(Tree, Tree)>, i: int, j: int)
    requires
        keys_ascend(es),
        0 <= i < es.len(),
        0 <= j < es.len(),
        es[i].0 == es[j].0,
    ensures
        i == j,
{
    crate::order_laws::lemma_order_flip(es[i].0, es[j].0);
    if i < j {
        assert(key_below(es, i, j));
    }
    if j < i {
        assert(key_below(es, j, i));
    }
}

/// Taking the one NaN for every NaN does not change the order of two floats.
pub proof fn lemma_float_order_normal(a: u64, b: u64)
    ensures
        float_order(crate::value::normal_bits(a), crate::value::normal_bits(b)) == float_order(
            a,
            b,
        ),
{
}

} // verus!

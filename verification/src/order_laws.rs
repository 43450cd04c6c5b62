//! What holds of the total order: it is a total order, and its equality is that of the values.
use crate::order::{array_order, entries_order, entry_order, le, lt, order, Order};
use crate::value::{is_nan, lemma_view_normal, Tree, Value, NAN_BITS};
use vstd::std_specs::cmp::PartialEqSpec;
use vstd::prelude::*;

verus! {

/// Exchanging the sides of a comparison flips its outcome.
pub proof fn lemma_order_flip(a: Tree, b: Tree)
    ensures
        order(b, a) == order(a, b).flip(),
    decreases a, 0nat,
{
    match (a, b) {
        (Tree::Array(x), Tree::Array(y)) => lemma_array_order_flip(x, y, 0),
        (Tree::Mapping(x), Tree::Mapping(y)) => lemma_entries_order_flip(x, y, 0),
        _ => {},
    }
}

proof fn lemma_array_order_flip(x: Seq<Tree>, y: Seq<Tree>, i: int)
    requires
        0 <= i,
    ensures
        array_order(y, x, i) == array_order(x, y, i).flip(),
    decreases x, x.len() - i,
{
    if i < x.len() && i < y.len() {
        lemma_order_flip(x[i], y[i]);
        lemma_array_order_flip(x, y, i + 1);
    }
}

proof fn lemma_entry_order_flip(a: (Tree, Tree), b: (Tree, Tree))
    ensures
        entry_order(b, a) == entry_order(a, b).flip(),
    decreases a, 0nat,
{
    lemma_order_flip(a.0, b.0);
    lemma_order_flip(a.1, b.1);
}

proof fn lemma_entries_order_flip(x: Seq<(Tree, Tree)>, y: Seq<(Tree, Tree)>, i: int)
    requires
        0 <= i,
    ensures
        entries_order(y, x, i) == entries_order(x, y, i).flip(),
    decreases x, x.len() - i,
{
    if i < x.len() && i < y.len() {
        lemma_entry_order_flip(x[i], y[i]);
        lemma_entries_order_flip(x, y, i + 1);
    }
}

/// Two values whose floats are normal compare as equal exactly when they are the same value.
pub proof fn lemma_order_equal(a: Tree, b: Tree)
    requires
        a.normal(),
        b.normal(),
    ensures
        (order(a, b) == Order::Equal) == (a == b),
    decreases a, 0nat,
{
    match (a, b) {
        (Tree::Array(x), Tree::Array(y)) => {
            lemma_array_order_equal(x, y, 0);
            if order(a, b) == Order::Equal {
                assert(x =~= y);
            }
        },
        (Tree::Mapping(x), Tree::Mapping(y)) => {
            lemma_entries_order_equal(x, y, 0);
            if order(a, b) == Order::Equal {
                assert(x =~= y);
            }
        },
        _ => {},
    }
}

proof fn lemma_array_order_equal(x: Seq<Tree>, y: Seq<Tree>, i: int)
    requires
        0 <= i,
        forall|j: int| 0 <= j < x.len() ==> (#[trigger] x[j]).normal(),
        forall|j: int| 0 <= j < y.len() ==> (#[trigger] y[j]).normal(),
    ensures
        (array_order(x, y, i) == Order::Equal) == ((x.len() == y.len() || (i >= x.len() && i
            >= y.len())) && forall|j: int| i <= j < x.len() && j < y.len() ==> x[j] == y[j]),
    decreases x, x.len() - i,
{
    if i < x.len() && i < y.len() {
        lemma_order_equal(x[i], y[i]);
        lemma_array_order_equal(x, y, i + 1);
    }
}

proof fn lemma_entries_order_equal(x: Seq<(Tree, Tree)>, y: Seq<(Tree, Tree)>, i: int)
    requires
        0 <= i,
        forall|j: int| 0 <= j < x.len() ==> (#[trigger] x[j]).0.normal() && x[j].1.normal(),
        forall|j: int| 0 <= j < y.len() ==> (#[trigger] y[j]).0.normal() && y[j].1.normal(),
    ensures
        (entries_order(x, y, i) == Order::Equal) == ((x.len() == y.len() || (i >= x.len() && i
            >= y.len())) && forall|j: int| i <= j < x.len() && j < y.len() ==> x[j] == y[j]),
    decreases x, x.len() - i,
{
    if i < x.len() && i < y.len() {
        lemma_order_equal(x[i].0, y[i].0);
        lemma_order_equal(x[i].1, y[i].1);
        lemma_entries_order_equal(x, y, i + 1);
        assert(entry_order(x[i], y[i]) == match order(x[i].0, y[i].0) {
            Order::Less => Order::Greater,
            Order::Greater => Order::Less,
            Order::Equal => order(x[i].1, y[i].1),
        });
    }
}

/// How two comparisons with a common middle compose.
pub open spec fn composes(ab: Order, bc: Order, ac: Order) -> bool {
    &&& ab == Order::Equal ==> ac == bc
    &&& bc == Order::Equal ==> ac == ab
    &&& ab == bc ==> ac == ab
}

/// The total order is transitive, and values that compare as equal compare alike to others.
pub proof fn lemma_order_composes(a: Tree, b: Tree, c: Tree)
    ensures
        composes(order(a, b), order(b, c), order(a, c)),
    decreases a, 0nat,
{
    match (a, b, c) {
        (Tree::Array(x), Tree::Array(y), Tree::Array(z)) => lemma_array_order_composes(
            x,
            y,
            z,
            0,
        ),
        (Tree::Mapping(x), Tree::Mapping(y), Tree::Mapping(z)) => lemma_entries_order_composes(
            x,
            y,
            z,
            0,
        ),
        _ => {},
    }
}

proof fn lemma_array_order_composes(x: Seq<Tree>, y: Seq<Tree>, z: Seq<Tree>, i: int)
    requires
        0 <= i,
    ensures
        composes(array_order(x, y, i), array_order(y, z, i), array_order(x, z, i)),
    decreases x, x.len() - i,
{
    if i < x.len() && i < y.len() && i < z.len() {
        lemma_order_composes(x[i], y[i], z[i]);
        lemma_array_order_composes(x, y, z, i + 1);
    }
}

proof fn lemma_entry_order_composes(a: (Tree, Tree), b: (Tree, Tree), c: (Tree, Tree))
    ensures
        composes(entry_order(a, b), entry_order(b, c), entry_order(a, c)),
    decreases a, 0nat,
{
    lemma_order_composes(a.0, b.0, c.0);
    lemma_order_composes(a.1, b.1, c.1);
}

proof fn lemma_entries_order_composes(
    x: Seq<(Tree, Tree)>,
    y: Seq<(Tree, Tree)>,
    z: Seq<(Tree, Tree)>,
    i: int,
)
    requires
        0 <= i,
    ensures
        composes(entries_order(x, y, i), entries_order(y, z, i), entries_order(x, z, i)),
    decreases x, x.len() - i,
{
    if i < x.len() && i < y.len() && i < z.len() {
        lemma_entry_order_composes(x[i], y[i], z[i]);
        lemma_entries_order_composes(x, y, z, i + 1);
    }
}

/// Equal values are at most each other: `a == b` implies `a <= b`.
pub proof fn law_equal_is_le(a: Value, b: Value)
    requires
        a@ == b@,
    ensures
        le(a@, b@),
{
    lemma_view_normal(a);
    lemma_view_normal(b);
    lemma_order_equal(a@, b@);
}

/// The order is antisymmetric: `a <= b` and `b <= a` imply `a == b`.
pub proof fn law_le_antisymmetric(a: Value, b: Value)
    requires
        le(a@, b@),
        le(b@, a@),
    ensures
        a@ == b@,
{
    lemma_view_normal(a);
    lemma_view_normal(b);
    lemma_order_flip(a@, b@);
    lemma_order_equal(a@, b@);
}

/// The order is transitive: `a <= b` and `b <= c` imply `a <= c`.
pub proof fn law_le_transitive(a: Value, b: Value, c: Value)
    requires
        le(a@, b@),
        le(b@, c@),
    ensures
        le(a@, c@),
{
    lemma_order_composes(a@, b@, c@);
}

/// The order is total: `a <= b` or `b <= a`.
pub proof fn law_le_total(a: Value, b: Value)
    ensures
        le(a@, b@) || le(b@, a@),
{
    lemma_order_flip(a@, b@);
}

/// The outcome of a comparison agrees with `<`, `<=`, `>`, `>=` and `==`.
pub proof fn law_order_agrees(a: Value, b: Value)
    ensures
        order(a@, b@) == Order::Less ==> lt(a@, b@) && le(a@, b@) && !lt(b@, a@) && !le(b@, a@)
            && a@ != b@,
        order(a@, b@) == Order::Equal ==> !lt(a@, b@) && le(a@, b@) && !lt(b@, a@) && le(b@, a@)
            && a@ == b@,
        order(a@, b@) == Order::Greater ==> !lt(a@, b@) && !le(a@, b@) && lt(b@, a@) && le(
            b@,
            a@,
        ) && a@ != b@,
{
    lemma_view_normal(a);
    lemma_view_normal(b);
    lemma_order_flip(a@, b@);
    lemma_order_equal(a@, b@);
}

/// Equality is reflexive: every value equals itself.
pub proof fn law_eq_reflexive(a: Value)
    ensures
        a.eq_spec(&a),
{
}

/// Equality is symmetric.
pub proof fn law_eq_symmetric(a: Value, b: Value)
    requires
        a.eq_spec(&b),
    ensures
        b.eq_spec(&a),
{
}

/// Equality is transitive.
pub proof fn law_eq_transitive(a: Value, b: Value, c: Value)
    requires
        a.eq_spec(&b),
        b.eq_spec(&c),
    ensures
        a.eq_spec(&c),
{
}

/// Two floats are equal exactly when both are NaN or they have the same bits: every NaN
/// equals every NaN and no other float, and -0 differs from +0.
pub proof fn law_eq_floats(x: u64, y: u64)
    ensures
        Value::Float(x).eq_spec(&Value::Float(y)) == ((is_nan(x) && is_nan(y)) || x == y),
{
    assert(is_nan(NAN_BITS)) by {
        assert(NAN_BITS % crate::value::SIGN_BIT == 0x7FFF_FFFF_FFFF_FFFFu64);
    }
}

/// Values of unlike variants are never equal, and arrays are equal exactly when they have
/// the same length and equal items.
pub proof fn law_eq_arrays(x: Vec<Value>, y: Vec<Value>)
    ensures
        Value::Array(x).eq_spec(&Value::Array(y)) == (x@.len() == y@.len() && forall|i: int|
            0 <= i < x@.len() ==> (#[trigger] x@[i]).eq_spec(&y@[i])),
{
    let tx = crate::value::trees(x@);
    let ty = crate::value::trees(y@);
    assert(Value::Array(x)@ == Tree::Array(tx));
    assert(Value::Array(y)@ == Tree::Array(ty));
    assert(tx.len() == x@.len() && ty.len() == y@.len());
    if x@.len() == y@.len() && forall|i: int|
        0 <= i < x@.len() ==> (#[trigger] x@[i]).eq_spec(&y@[i]) {
        assert(tx =~= ty);
    }
    if tx == ty {
        assert forall|i: int| 0 <= i < x@.len() implies (#[trigger] x@[i]).eq_spec(&y@[i]) by {
            assert(tx[i] == x@[i]@ && ty[i] == y@[i]@);
        }
    }
}

} // verus!

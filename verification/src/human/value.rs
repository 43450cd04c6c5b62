//! From a value as it is written to the value: the floats of decimal literals come from a
//! parser of decimal floats, by a table of their bits.
use crate::entries::{insert, insert_entry, lemma_insert_wf};
use crate::human::de::{literal_entries, literals, Literal, Parsed};
use crate::human::lex::{FloatLiteral, FloatText};
use crate::order::entries_wf;
use crate::value::{
    normal_bits, tree_entries, trees, Tree, Value, INF_BITS, NAN_BITS, NEG_INF_BITS,
};
use vstd::prelude::*;

verus! {

/// The decimal float literals of a value, in the order in which they stand.
pub open spec fn texts(l: Literal) -> Seq<Seq<u8>>
    decreases l, 0nat, 0nat,
{
    match l {
        Literal::Float(FloatText::Decimal(t)) => seq![t],
        Literal::Array(xs) => items_texts(xs, xs.len()),
        Literal::Mapping(es) => entries_texts(es, es.len()),
        _ => Seq::empty(),
    }
}

/// The decimal float literals of the first `n` items.
pub open spec fn items_texts(xs: Seq<Literal>, n: nat) -> Seq<Seq<u8>>
    decreases xs, 1nat, n,
{
    if n == 0 || n > xs.len() {
        Seq::empty()
    } else {
        items_texts(xs, (n - 1) as nat) + texts(xs[n - 1])
    }
}

/// The decimal float literals of the first `n` entries.
pub open spec fn entries_texts(es: Seq<(Literal, Literal)>, n: nat) -> Seq<Seq<u8>>
    decreases es, 1nat, n,
{
    if n == 0 || n > es.len() {
        Seq::empty()
    } else {
        entries_texts(es, (n - 1) as nat) + texts(es[n - 1].0) + texts(es[n - 1].1)
    }
}

/// The bits of a float as it is written; those of a decimal literal are `bits[k]`.
pub open spec fn float_bits(f: FloatText, bits: Seq<u64>, k: int) -> u64 {
    match f {
        FloatText::NaN => NAN_BITS,
        FloatText::Inf => INF_BITS,
        FloatText::NegInf => NEG_INF_BITS,
        FloatText::Decimal(_) => bits[k],
    }
}

/// The value that is written, where `bits` holds the bits of the decimal float literals
/// from the one at index `k` on, in the order in which they stand. The entries of a map or
/// a set are bound one after the other: of two entries with the same key the later one
/// stays.
pub open spec fn value_of(l: Literal, bits: Seq<u64>, k: int) -> Tree
    decreases l, 0nat, 0nat,
{
    match l {
        Literal::Nil => Tree::Nil,
        Literal::Bool(b) => Tree::Bool(b),
        Literal::Float(f) => Tree::Float(normal_bits(float_bits(f, bits, k))),
        Literal::Int(n) => Tree::Int(n),
        Literal::Array(xs) => Tree::Array(items_of(xs, bits, k, xs.len())),
        Literal::Mapping(es) => Tree::Mapping(entries_of(es, bits, k, es.len())),
    }
}

/// The values of the first `n` items.
pub open spec fn items_of(xs: Seq<Literal>, bits: Seq<u64>, k: int, n: nat) -> Seq<Tree>
    decreases xs, 1nat, n,
{
    if n == 0 || n > xs.len() {
        Seq::empty()
    } else {
        items_of(xs, bits, k, (n - 1) as nat).push(
            value_of(xs[n - 1], bits, k + items_texts(xs, (n - 1) as nat).len()),
        )
    }
}

/// The first `n` entries, bound one after the other.
pub open spec fn entries_of(es: Seq<(Literal, Literal)>, bits: Seq<u64>, k: int, n: nat) -> Seq<
    (Tree, Tree),
>
    decreases es, 1nat, n,
{
    if n == 0 || n > es.len() {
        Seq::empty()
    } else {
        let at = k + entries_texts(es, (n - 1) as nat).len();
        insert(
            entries_of(es, bits, k, (n - 1) as nat),
            value_of(es[n - 1].0, bits, at),
            value_of(es[n - 1].1, bits, at + texts(es[n - 1].0).len()),
        )
    }
}

/// What a list of texts stands for.
pub open spec fn views(v: Seq<Vec<u8>>) -> Seq<Seq<u8>> {
    Seq::new(v.len(), |i: int| v[i]@)
}

impl Parsed {
    /// Appends the decimal float literals of the value, in the order in which they stand.
    #[verifier::loop_isolation(false)]
    pub fn collect_float_texts(&self, out: &mut Vec<Vec<u8>>)
        ensures
            views(final(out)@) == views(old(out)@) + texts(self@),
        decreases self,
    {
        match self {
            Parsed::Float(FloatLiteral::Decimal(t)) => {
                let copy = vstd::slice::slice_to_vec(t.as_slice());
                out.push(copy);
                assert(views(out@) =~= views(old(out)@) + texts(self@));
            },
            Parsed::Array(xs) => {
                let ghost t = literals(xs@);
                assert(self@ == Literal::Array(t));
                let mut i: usize = 0;
                assert(views(out@) =~= views(old(out)@) + items_texts(t, 0));
                while i < xs.len()
                    invariant
                        0 <= i <= xs.len(),
                        views(out@) == views(old(out)@) + items_texts(t, i as nat),
                    decreases xs.len() - i,
                {
                    assert(t[i as int] == xs@[i as int]@);
                    let ghost before = views(out@);
                    xs[i].collect_float_texts(out);
                    assert(views(out@) =~= views(old(out)@) + items_texts(t, (i + 1) as nat));
                    i = i + 1;
                }
            },
            Parsed::Mapping(es) => {
                let ghost t = literal_entries(es@);
                assert(self@ == Literal::Mapping(t));
                let mut i: usize = 0;
                assert(views(out@) =~= views(old(out)@) + entries_texts(t, 0));
                while i < es.len()
                    invariant
                        0 <= i <= es.len(),
                        views(out@) == views(old(out)@) + entries_texts(t, i as nat),
                    decreases es.len() - i,
                {
                    assert(t[i as int] == (es@[i as int].0@, es@[i as int].1@));
                    es[i].0.collect_float_texts(out);
                    es[i].1.collect_float_texts(out);
                    assert(views(out@) =~= views(old(out)@) + entries_texts(t, (i + 1) as nat));
                    i = i + 1;
                }
            },
            _ => {
                assert(views(out@) =~= views(old(out)@) + texts(self@));
            },
        }
    }

    /// The decimal float literals of the value, in the order in which they stand: what a
    /// parser of decimal floats is to turn into the table that `to_value` takes.
    pub fn float_texts(&self) -> (out: Vec<Vec<u8>>)
        ensures
            views(out@) == texts(self@),
    {
        let mut out: Vec<Vec<u8>> = Vec::new();
        self.collect_float_texts(&mut out);
        assert(views(out@) =~= texts(self@));
        out
    }

    /// The value, where `floats` holds the bits of the decimal float literals from the one
    /// at index `k` on; and the index after those of this value. `None` if the table is too
    /// short.
    #[verifier::loop_isolation(false)]
    pub fn build(&self, floats: &[u64], k: usize) -> (r: Option<(Value, usize)>)
        requires
            k <= floats@.len(),
        ensures
            k + texts(self@).len() <= floats@.len() ==> r.is_some() && r.unwrap().0@ == value_of(
                self@,
                floats@,
                k as int,
            ) && r.unwrap().0.wf() && r.unwrap().1 == k + texts(self@).len(),
            k + texts(self@).len() > floats@.len() ==> r.is_none(),
        decreases self,
    {
        let len = floats.len();
        match self {
            Parsed::Nil => Some((Value::Nil, k)),
            Parsed::Bool(b) => Some((Value::Bool(*b), k)),
            Parsed::Int(n) => Some((Value::Int(*n), k)),
            Parsed::Float(f) => {
                proof {
                    crate::value::lemma_view_normal(Value::Float(float_bits(f@, floats@, k as int)));
                }
                match f {
                    FloatLiteral::NaN => Some((Value::Float(NAN_BITS), k)),
                    FloatLiteral::Inf => Some((Value::Float(INF_BITS), k)),
                    FloatLiteral::NegInf => Some((Value::Float(NEG_INF_BITS), k)),
                    FloatLiteral::Decimal(_) => {
                        if k < len {
                            Some((Value::Float(floats[k]), k + 1))
                        } else {
                            None
                        }
                    },
                }
            },
            Parsed::Array(xs) => {
                let ghost t = literals(xs@);
                assert(self@ == Literal::Array(t));
                let mut out: Vec<Value> = Vec::new();
                let mut at: usize = k;
                let mut i: usize = 0;
                assert(trees(out@) =~= items_of(t, floats@, k as int, 0));
                while i < xs.len()
                    invariant
                        0 <= i <= xs.len(),
                        k <= at <= len,
                        at == k + items_texts(t, i as nat).len(),
                        trees(out@) == items_of(t, floats@, k as int, i as nat),
                        forall|j: int| 0 <= j < out@.len() ==> (#[trigger] trees(out@)[j]).wf(),
                    decreases xs.len() - i,
                {
                    assert(t[i as int] == xs@[i as int]@);
                    match xs[i].build(floats, at) {
                        None => {
                            proof {
                                lemma_items_texts_grow(t, (i + 1) as nat, xs.len() as nat);
                            }
                            return None;
                        },
                        Some((v, next)) => {
                            let ghost before = trees(out@);
                            out.push(v);
                            assert(trees(out@) =~= before.push(v@));
                            at = next;
                        },
                    }
                    i = i + 1;
                }
                let v = Value::Array(out);
                proof {
                    assert(v@ == Tree::Array(trees(out@)));
                    assert(v@.wf() == (forall|j: int|
                        0 <= j < trees(out@).len() ==> (#[trigger] trees(out@)[j]).wf()));
                }
                Some((v, at))
            },
            Parsed::Mapping(es) => {
                let ghost t = literal_entries(es@);
                assert(self@ == Literal::Mapping(t));
                let mut out: Vec<(Value, Value)> = Vec::new();
                let mut at: usize = k;
                let mut i: usize = 0;
                assert(tree_entries(out@) =~= entries_of(t, floats@, k as int, 0));
                assert(entries_wf(tree_entries(out@)));
                while i < es.len()
                    invariant
                        0 <= i <= es.len(),
                        k <= at <= len,
                        at == k + entries_texts(t, i as nat).len(),
                        tree_entries(out@) == entries_of(t, floats@, k as int, i as nat),
                        entries_wf(tree_entries(out@)),
                    decreases es.len() - i,
                {
                    assert(t[i as int] == (es@[i as int].0@, es@[i as int].1@));
                    match es[i].0.build(floats, at) {
                        None => {
                            proof {
                                lemma_entries_texts_grow(t, (i + 1) as nat, es.len() as nat);
                            }
                            return None;
                        },
                        Some((key, mid)) => {
                            match es[i].1.build(floats, mid) {
                                None => {
                                    proof {
                                        lemma_entries_texts_grow(t, (i + 1) as nat, es.len() as nat);
                                    }
                                    return None;
                                },
                                Some((value, next)) => {
                                    proof {
                                        lemma_insert_wf(tree_entries(out@), key@, value@);
                                    }
                                    insert_entry(&mut out, key, value);
                                    at = next;
                                },
                            }
                        },
                    }
                    i = i + 1;
                }
                let v = Value::Mapping(out);
                proof {
                    assert(v@ == Tree::Mapping(tree_entries(out@)));
                    assert(v@.wf() == entries_wf(tree_entries(out@)));
                }
                Some((v, at))
            },
        }
    }

    /// The value that is written, where `floats` holds the bits of its decimal float
    /// literals, in the order in which they stand (see [`Parsed::float_texts`]). `None` if
    /// the table has more or fewer floats than the value has such literals.
    pub fn to_value(&self, floats: &[u64]) -> (r: Option<Value>)
        ensures
            floats@.len() == texts(self@).len() ==> r.is_some() && r.unwrap()@ == value_of(
                self@,
                floats@,
                0,
            ) && r.unwrap().wf(),
            floats@.len() != texts(self@).len() ==> r.is_none(),
    {
        match self.build(floats, 0) {
            None => None,
            Some((v, end)) => {
                if end == floats.len() {
                    Some(v)
                } else {
                    None
                }
            },
        }
    }
}

/// More items have no fewer decimal float literals.
pub proof fn lemma_items_texts_grow(xs: Seq<Literal>, n: nat, m: nat)
    requires
        n <= m <= xs.len(),
    ensures
        items_texts(xs, n).len() <= items_texts(xs, m).len(),
    decreases m,
{
    if n < m {
        lemma_items_texts_grow(xs, n, (m - 1) as nat);
    }
}

/// More entries have no fewer decimal float literals.
pub proof fn lemma_entries_texts_grow(es: Seq<(Literal, Literal)>, n: nat, m: nat)
    requires
        n <= m <= es.len(),
    ensures
        entries_texts(es, n).len() <= entries_texts(es, m).len(),
    decreases m,
{
    if n < m {
        lemma_entries_texts_grow(es, n, (m - 1) as nat);
    }
}

} // verus!

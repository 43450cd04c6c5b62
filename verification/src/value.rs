//! The value model: the in-memory type and the logical value it stands for.
use vstd::prelude::*;

verus! {

/// The bit pattern that stands for NaN wherever a single one is needed.
pub const NAN_BITS: u64 = 0xFFFF_FFFF_FFFF_FFFF;

/// Positive infinity.
pub const INF_BITS: u64 = 0x7FF0_0000_0000_0000;

/// Negative infinity.
pub const NEG_INF_BITS: u64 = 0xFFF0_0000_0000_0000;

/// The sign bit of a 64-bit float, as a number.
pub const SIGN_BIT: u64 = 0x8000_0000_0000_0000;

/// A valuable value of arbitrary shape.
///
/// A float is held by its 64 IEEE-754 bits. A map is held as its entries; a valid map holds
/// them in strictly ascending order of their keys (see [`Value::wf`]).
#[derive(Debug)]
pub enum Value {
    Nil,
    Bool(bool),
    Float(u64),
    Int(i64),
    Array(Vec<Value>),
    Mapping(Vec<(Value, Value)>),
}

/// The logical value that a `Value` stands for. All NaNs are one float here, `NAN_BITS`.
pub enum Tree {
    Nil,
    Bool(bool),
    Float(u64),
    Int(i64),
    Array(Seq<Tree>),
    Mapping(Seq<(Tree, Tree)>),
}

/// Whether the bits are those of a NaN: the exponent all ones, the fraction not zero.
pub open spec fn is_nan(bits: u64) -> bool {
    bits % SIGN_BIT > INF_BITS
}

/// The bits of the one float that `bits` stands for.
pub open spec fn normal_bits(bits: u64) -> u64 {
    if is_nan(bits) {
        NAN_BITS
    } else {
        bits
    }
}

/// The logical values of a sequence of values.
pub open spec fn trees(vs: Seq<Value>) -> Seq<Tree>
    decreases vs,
{
    Seq::new(
        vs.len(),
        |i: int|
            if 0 <= i < vs.len() {
                vs[i].view()
            } else {
                Tree::Nil
            },
    )
}

/// The logical entries of a sequence of entries.
pub open spec fn tree_entries(es: Seq<(Value, Value)>) -> Seq<(Tree, Tree)>
    decreases es,
{
    Seq::new(
        es.len(),
        |i: int|
            if 0 <= i < es.len() {
                (es[i].0.view(), es[i].1.view())
            } else {
                (Tree::Nil, Tree::Nil)
            },
    )
}

impl View for Value {
    type V = Tree;

    open spec fn view(&self) -> Tree
        decreases self,
    {
        match self {
            Value::Nil => Tree::Nil,
            Value::Bool(b) => Tree::Bool(*b),
            Value::Float(bits) => Tree::Float(normal_bits(*bits)),
            Value::Int(n) => Tree::Int(*n),
            Value::Array(vs) => Tree::Array(trees(vs@)),
            Value::Mapping(es) => Tree::Mapping(tree_entries(es@)),
        }
    }
}

impl Tree {
    /// Every float in the value is held by its normal bits: no NaN but `NAN_BITS`.
    pub open spec fn normal(self) -> bool
        decreases self,
    {
        match self {
            Tree::Float(bits) => normal_bits(bits) == bits,
            Tree::Array(xs) => forall|i: int| 0 <= i < xs.len() ==> (#[trigger] xs[i]).normal(),
            Tree::Mapping(es) => forall|i: int|
                0 <= i < es.len() ==> (#[trigger] es[i]).0.normal() && es[i].1.normal(),
            _ => true,
        }
    }
}

/// The logical value of any `Value` holds its floats by their normal bits.
pub proof fn lemma_view_normal(v: Value)
    ensures
        v@.normal(),
    decreases v,
{
    if v is Array {
        let vs = v->Array_0;
        assert forall|i: int| 0 <= i < trees(vs@).len() implies (#[trigger] trees(
            vs@,
        )[i]).normal() by {
            lemma_view_normal(vs@[i]);
        }
        assert(v@ == Tree::Array(trees(vs@)));
    } else if v is Mapping {
        let es = v->Mapping_0;
        assert forall|i: int| 0 <= i < tree_entries(es@).len() implies (#[trigger] tree_entries(
            es@,
        )[i]).0.normal() && tree_entries(es@)[i].1.normal() by {
            lemma_view_normal(es@[i].0);
            lemma_view_normal(es@[i].1);
        }
        assert(v@ == Tree::Mapping(tree_entries(es@)));
    } else if v is Float {
        assert(NAN_BITS % SIGN_BIT == 0x7FFF_FFFF_FFFF_FFFFu64);
    }
}

impl Clone for Value {
    /// A copy that stands for the same value.
    #[verifier::loop_isolation(false)]
    fn clone(&self) -> (r: Self)
        ensures
            r@ == self@,
        decreases self,
    {
        match self {
            Value::Nil => Value::Nil,
            Value::Bool(b) => Value::Bool(*b),
            Value::Float(bits) => Value::Float(*bits),
            Value::Int(n) => Value::Int(*n),
            Value::Array(xs) => {
                let mut out: Vec<Value> = Vec::with_capacity(xs.len());
                let mut i: usize = 0;
                while i < xs.len()
                    invariant
                        0 <= i <= xs.len(),
                        out@.len() == i,
                        forall|j: int| 0 <= j < i ==> (#[trigger] out@[j])@ == xs@[j]@,
                    decreases xs.len() - i,
                {
                    out.push(xs[i].clone());
                    i = i + 1;
                }
                assert(trees(out@) =~= trees(xs@));
                Value::Array(out)
            },
            Value::Mapping(es) => {
                let mut out: Vec<(Value, Value)> = Vec::with_capacity(es.len());
                let mut i: usize = 0;
                while i < es.len()
                    invariant
                        0 <= i <= es.len(),
                        out@.len() == i,
                        forall|j: int|
                            0 <= j < i ==> (#[trigger] out@[j]).0@ == es@[j].0@ && out@[j].1@
                                == es@[j].1@,
                    decreases es.len() - i,
                {
                    out.push((es[i].0.clone(), es[i].1.clone()));
                    i = i + 1;
                }
                assert(tree_entries(out@) =~= tree_entries(es@));
                Value::Mapping(out)
            },
        }
    }
}

/// Whether the bits are those of a NaN.
pub fn float_is_nan(bits: u64) -> (r: bool)
    ensures
        r == is_nan(bits),
{
    bits % SIGN_BIT > INF_BITS
}

} // verus!

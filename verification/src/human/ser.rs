//! The encoder of the human-readable encoding.
use crate::text::{int_text, push_all, push_repeat};
use crate::value::{
    float_is_nan, is_nan, tree_entries, trees, Tree, Value, INF_BITS, NEG_INF_BITS,
};
use vstd::prelude::*;
use vstd::string::StringSliceAdditionalSpecFns;

verus! {

/// Everything that can go wrong during encoding.
#[derive(Debug, PartialEq, Eq, Clone)]
pub enum EncodeError {
    /// A message of the caller's own; the encoder itself never gives it.
    Message(String),
    /// An unsigned integer above 2^63 - 1.
    OutOfBoundsInt,
    /// A collection of more than 2^63 - 1 items.
    OutOfBoundsCollection,
    /// A collection whose length is not known when its encoding begins.
    UnknownLength,
    /// A table of float texts that has not one text for each finite float of the value.
    FloatTexts,
}

/// Calls `itoa::Buffer::format`: the decimal text of the int, with a `-` before a negative
/// one and without leading zeros.
#[verifier::external_body]
pub(crate) fn format_int(n: i64) -> (out: Vec<u8>)
    ensures
        out@ == int_text(n as int),
{
    let mut buffer = itoa::Buffer::new();
    buffer.format(n).as_bytes().to_vec()
}

/// Whether the float with these bits is finite: no NaN and no infinity.
pub open spec fn finite(bits: u64) -> bool {
    !is_nan(bits) && bits != INF_BITS && bits != NEG_INF_BITS
}

/// The bits of the finite floats of a value, in the order in which they stand.
pub open spec fn finite_bits(t: Tree) -> Seq<u64>
    decreases t, 0nat, 0nat,
{
    match t {
        Tree::Float(bits) => if finite(bits) {
            seq![bits]
        } else {
            Seq::empty()
        },
        Tree::Array(xs) => items_bits(xs, xs.len()),
        Tree::Mapping(es) => entries_bits(es, es.len()),
        _ => Seq::empty(),
    }
}

/// The bits of the finite floats of the first `n` items.
pub open spec fn items_bits(xs: Seq<Tree>, n: nat) -> Seq<u64>
    decreases xs, 1nat, n,
{
    if n == 0 || n > xs.len() {
        Seq::empty()
    } else {
        items_bits(xs, (n - 1) as nat) + finite_bits(xs[n - 1])
    }
}

/// The bits of the finite floats of the first `n` entries.
pub open spec fn entries_bits(es: Seq<(Tree, Tree)>, n: nat) -> Seq<u64>
    decreases es, 1nat, n,
{
    if n == 0 || n > es.len() {
        Seq::empty()
    } else {
        entries_bits(es, (n - 1) as nat) + finite_bits(es[n - 1].0) + finite_bits(es[n - 1].1)
    }
}

/// The text of a float: `NaN`, `Inf`, `-Inf`, or for a finite float `texts[k]`.
pub open spec fn float_text(bits: u64, texts: Seq<Seq<u8>>, k: int) -> Seq<u8> {
    if is_nan(bits) {
        seq![0x4Eu8, 0x61u8, 0x4Eu8]
    } else if bits == INF_BITS {
        seq![0x49u8, 0x6Eu8, 0x66u8]
    } else if bits == NEG_INF_BITS {
        seq![0x2Du8, 0x49u8, 0x6Eu8, 0x66u8]
    } else {
        texts[k]
    }
}

/// `n` spaces.
pub open spec fn spaces(n: nat) -> Seq<u8> {
    Seq::new(n, |i: int| 0x20u8)
}

/// The separator between a key and its value: a colon, and a space unless `indent` is 0.
pub open spec fn colon_text(indent: nat) -> Seq<u8> {
    if indent == 0 {
        seq![0x3Au8]
    } else {
        seq![0x3Au8, 0x20u8]
    }
}

/// What the lines of the items of a collection of more than one item begin with, where the
/// line of the collection begins with `prefix`: `indent` spaces more.
pub open spec fn item_prefix(indent: nat, prefix: Seq<u8>) -> Seq<u8> {
    if indent == 0 {
        prefix
    } else {
        prefix + spaces(indent)
    }
}

/// What stands before the item at index `i` of a collection of more than one item: with an
/// indent of 0, a comma and a space before all items but the first; else the beginning of
/// the item's line.
pub open spec fn before_item(indent: nat, prefix: Seq<u8>, i: int) -> Seq<u8> {
    if indent == 0 {
        if i == 0 {
            Seq::empty()
        } else {
            seq![0x2Cu8, 0x20u8]
        }
    } else {
        prefix + spaces(indent)
    }
}

/// What stands after an item of a collection of more than one item: with an indent of 0
/// nothing; else a comma and a newline.
pub open spec fn after_item(indent: nat) -> Seq<u8> {
    if indent == 0 {
        Seq::empty()
    } else {
        seq![0x2Cu8, 0x0Au8]
    }
}

/// What stands after the opening byte of a collection of more than one item: with an indent
/// of 0 nothing; else a newline.
pub open spec fn after_open(indent: nat) -> Seq<u8> {
    if indent == 0 {
        Seq::empty()
    } else {
        seq![0x0Au8]
    }
}

/// What stands before the closing byte of a collection of more than one item: with an
/// indent of 0 nothing; else the beginning of the collection's line.
pub open spec fn before_close(indent: nat, prefix: Seq<u8>) -> Seq<u8> {
    if indent == 0 {
        Seq::empty()
    } else {
        prefix
    }
}

/// The human-readable text of a value whose line begins with `prefix`, where `texts` holds
/// the texts of its finite floats from the one at index `k` on, in the order in which they
/// stand.
///
/// An int is written in decimal, a float as `float_text` says, an array between `[` and
/// `]`, a map between `{` and `}` with a colon between a key and its value. A collection of
/// no item or of one stands on one line. A collection of more items stands on one line with
/// a comma and a space between the items if `indent` is 0; else each item stands on a line
/// of its own, `indent` spaces deeper than the collection, with a comma after it.
pub open spec fn human(t: Tree, indent: nat, prefix: Seq<u8>, texts: Seq<Seq<u8>>, k: int) -> Seq<
    u8,
>
    decreases t, 0nat, 0int,
{
    match t {
        Tree::Nil => seq![0x6Eu8, 0x69u8, 0x6Cu8],
        Tree::Bool(b) => if b {
            seq![0x74u8, 0x72u8, 0x75u8, 0x65u8]
        } else {
            seq![0x66u8, 0x61u8, 0x6Cu8, 0x73u8, 0x65u8]
        },
        Tree::Float(bits) => float_text(bits, texts, k),
        Tree::Int(n) => int_text(n as int),
        Tree::Array(xs) => if xs.len() == 0 {
            seq![0x5Bu8, 0x5Du8]
        } else if xs.len() == 1 {
            seq![0x5Bu8] + human(xs[0], indent, prefix, texts, k) + seq![0x5Du8]
        } else {
            seq![0x5Bu8] + after_open(indent) + human_items(xs, indent, prefix, texts, k, 0)
                + before_close(indent, prefix) + seq![0x5Du8]
        },
        Tree::Mapping(es) => if es.len() == 0 {
            seq![0x7Bu8, 0x7Du8]
        } else if es.len() == 1 {
            seq![0x7Bu8] + human(es[0].0, indent, prefix, texts, k) + colon_text(indent) + human(
                es[0].1,
                indent,
                prefix,
                texts,
                k + finite_bits(es[0].0).len(),
            ) + seq![0x7Du8]
        } else {
            seq![0x7Bu8] + after_open(indent) + human_entries(es, indent, prefix, texts, k, 0)
                + before_close(indent, prefix) + seq![0x7Du8]
        },
    }
}

/// The texts of the items from index `i` on of an array of more than one item.
pub open spec fn human_items(
    xs: Seq<Tree>,
    indent: nat,
    prefix: Seq<u8>,
    texts: Seq<Seq<u8>>,
    k: int,
    i: int,
) -> Seq<u8>
    decreases xs, 1nat, xs.len() - i,
{
    if 0 <= i < xs.len() {
        before_item(indent, prefix, i) + human(xs[i], indent, item_prefix(indent, prefix), texts, k)
            + after_item(indent) + human_items(
            xs,
            indent,
            prefix,
            texts,
            k + finite_bits(xs[i]).len(),
            i + 1,
        )
    } else {
        Seq::empty()
    }
}

/// The texts of the entries from index `i` on of a map of more than one entry.
pub open spec fn human_entries(
    es: Seq<(Tree, Tree)>,
    indent: nat,
    prefix: Seq<u8>,
    texts: Seq<Seq<u8>>,
    k: int,
    i: int,
) -> Seq<u8>
    decreases es, 1nat, es.len() - i,
{
    if 0 <= i < es.len() {
        before_item(indent, prefix, i) + human(
            es[i].0,
            indent,
            item_prefix(indent, prefix),
            texts,
            k,
        ) + colon_text(indent) + human(
            es[i].1,
            indent,
            item_prefix(indent, prefix),
            texts,
            k + finite_bits(es[i].0).len(),
        ) + after_item(indent) + human_entries(
            es,
            indent,
            prefix,
            texts,
            k + finite_bits(es[i].0).len() + finite_bits(es[i].1).len(),
            i + 1,
        )
    } else {
        Seq::empty()
    }
}

/// What a list of texts stands for.
pub open spec fn views(v: Seq<Vec<u8>>) -> Seq<Seq<u8>> {
    Seq::new(v.len(), |i: int| v[i]@)
}

/// Whether the float with these bits is finite.
pub fn is_finite(bits: u64) -> (r: bool)
    ensures
        r == finite(bits),
{
    !float_is_nan(bits) && bits != INF_BITS && bits != NEG_INF_BITS
}

/// Appends the bits of the finite floats of a value, in the order in which they stand.
#[verifier::loop_isolation(false)]
pub fn collect_finite_floats(v: &Value, out: &mut Vec<u64>)
    ensures
        final(out)@ == old(out)@ + finite_bits(v@),
    decreases v,
{
    match v {
        Value::Float(bits) => {
            proof {
                crate::value::lemma_view_normal(*v);
                assert(is_nan(crate::value::NAN_BITS)) by {
                    assert(crate::value::NAN_BITS % crate::value::SIGN_BIT
                        == 0x7FFF_FFFF_FFFF_FFFFu64);
                }
            }
            if is_finite(*bits) {
                out.push(*bits);
            }
            assert(out@ =~= old(out)@ + finite_bits(v@));
        },
        Value::Array(xs) => {
            let ghost t = trees(xs@);
            assert(v@ == Tree::Array(t));
            let mut i: usize = 0;
            assert(out@ =~= old(out)@ + items_bits(t, 0));
            while i < xs.len()
                invariant
                    0 <= i <= xs.len(),
                    out@ == old(out)@ + items_bits(t, i as nat),
                decreases xs.len() - i,
            {
                assert(t[i as int] == xs@[i as int]@);
                collect_finite_floats(&xs[i], out);
                assert(out@ =~= old(out)@ + items_bits(t, (i + 1) as nat));
                i = i + 1;
            }
        },
        Value::Mapping(es) => {
            let ghost t = tree_entries(es@);
            assert(v@ == Tree::Mapping(t));
            let mut i: usize = 0;
            assert(out@ =~= old(out)@ + entries_bits(t, 0));
            while i < es.len()
                invariant
                    0 <= i <= es.len(),
                    out@ == old(out)@ + entries_bits(t, i as nat),
                decreases es.len() - i,
            {
                assert(t[i as int] == (es@[i as int].0@, es@[i as int].1@));
                collect_finite_floats(&es[i].0, out);
                collect_finite_floats(&es[i].1, out);
                assert(out@ =~= old(out)@ + entries_bits(t, (i + 1) as nat));
                i = i + 1;
            }
        },
        _ => {
            assert(out@ =~= old(out)@ + finite_bits(v@));
        },
    }
}

/// The bits of the finite floats of a value, in the order in which they stand: what a
/// printer of decimal floats is to turn into the table of texts that `to_vec` takes.
pub fn finite_floats(v: &Value) -> (out: Vec<u64>)
    ensures
        out@ == finite_bits(v@),
{
    let mut out: Vec<u64> = Vec::new();
    collect_finite_floats(v, &mut out);
    assert(out@ =~= finite_bits(v@));
    out
}

/// Appends the text of a float.
pub(crate) fn push_float(out: &mut Vec<u8>, bits: u64, texts: &[Vec<u8>], k: usize)
    requires
        finite(bits) ==> k < texts@.len(),
    ensures
        final(out)@ == old(out)@ + float_text(bits, views(texts@), k as int),
{
    if float_is_nan(bits) {
        out.push(0x4E);
        out.push(0x61);
        out.push(0x4E);
    } else if bits == INF_BITS {
        out.push(0x49);
        out.push(0x6E);
        out.push(0x66);
    } else if bits == NEG_INF_BITS {
        out.push(0x2D);
        out.push(0x49);
        out.push(0x6E);
        out.push(0x66);
    } else {
        push_all(out, texts[k].as_slice());
    }
    assert(out@ =~= old(out)@ + float_text(bits, views(texts@), k as int));
}

fn push_before_item(out: &mut Vec<u8>, indent: usize, inner: &[u8], i: usize)
    ensures
        final(out)@ == old(out)@ + (if indent == 0 {
            if i == 0 {
                Seq::<u8>::empty()
            } else {
                seq![0x2Cu8, 0x20u8]
            }
        } else {
            inner@
        }),
{
    if indent == 0 {
        if i != 0 {
            out.push(0x2C);
            out.push(0x20);
            assert(out@ =~= old(out)@ + seq![0x2Cu8, 0x20u8]);
        } else {
            assert(out@ =~= old(out)@ + Seq::<u8>::empty());
        }
    } else {
        push_all(out, inner);
    }
}

fn push_after_item(out: &mut Vec<u8>, indent: usize)
    ensures
        final(out)@ == old(out)@ + after_item(indent as nat),
{
    if indent != 0 {
        out.push(0x2C);
        out.push(0x0A);
    }
    assert(out@ =~= old(out)@ + after_item(indent as nat));
}

fn push_colon(out: &mut Vec<u8>, indent: usize)
    ensures
        final(out)@ == old(out)@ + colon_text(indent as nat),
{
    out.push(0x3A);
    if indent != 0 {
        out.push(0x20);
    }
    assert(out@ =~= old(out)@ + colon_text(indent as nat));
}

fn push_open(out: &mut Vec<u8>, open: u8, indent: usize)
    ensures
        final(out)@ == old(out)@ + seq![open] + after_open(indent as nat),
{
    out.push(open);
    if indent != 0 {
        out.push(0x0A);
    }
    assert(out@ =~= old(out)@ + seq![open] + after_open(indent as nat));
}

fn push_close(out: &mut Vec<u8>, close: u8, indent: usize, prefix: &[u8])
    ensures
        final(out)@ == old(out)@ + before_close(indent as nat, prefix@) + seq![close],
{
    if indent != 0 {
        push_all(out, prefix);
    }
    out.push(close);
    assert(out@ =~= old(out)@ + before_close(indent as nat, prefix@) + seq![close]);
}

/// What the lines of the items of a collection begin with (see [`item_prefix`]).
fn inner_prefix(indent: usize, prefix: &[u8]) -> (inner: Vec<u8>)
    ensures
        inner@ == item_prefix(indent as nat, prefix@),
{
    let mut inner: Vec<u8> = Vec::new();
    push_all(&mut inner, prefix);
    push_repeat(&mut inner, 0x20, indent);
    assert(inner@ =~= prefix@ + spaces(indent as nat));
    if indent == 0 {
        assert(inner@ =~= prefix@);
    }
    inner
}

/// Appends the human-readable text of a value whose line begins with `prefix`, and gives
/// the index of the text after those of the value's finite floats.
pub(crate) fn push_human(
    out: &mut Vec<u8>,
    v: &Value,
    indent: usize,
    prefix: &[u8],
    texts: &[Vec<u8>],
    k: usize,
) -> (next: usize)
    requires
        k + finite_bits(v@).len() <= texts@.len(),
    ensures
        final(out)@ == old(out)@ + human(v@, indent as nat, prefix@, views(texts@), k as int),
        next == k + finite_bits(v@).len(),
    decreases v, 0nat,
{
    let len = texts.len();
    let ghost tx = views(texts@);
    match v {
        Value::Nil => {
            out.push(0x6E);
            out.push(0x69);
            out.push(0x6C);
            assert(out@ =~= old(out)@ + human(v@, indent as nat, prefix@, tx, k as int));
            k
        },
        Value::Bool(b) => {
            if *b {
                out.push(0x74);
                out.push(0x72);
                out.push(0x75);
                out.push(0x65);
            } else {
                out.push(0x66);
                out.push(0x61);
                out.push(0x6C);
                out.push(0x73);
                out.push(0x65);
            }
            assert(out@ =~= old(out)@ + human(v@, indent as nat, prefix@, tx, k as int));
            k
        },
        Value::Float(bits) => {
            proof {
                crate::value::lemma_view_normal(*v);
                assert(is_nan(crate::value::NAN_BITS)) by {
                    assert(crate::value::NAN_BITS % crate::value::SIGN_BIT
                        == 0x7FFF_FFFF_FFFF_FFFFu64);
                }
            }
            push_float(out, *bits, texts, k);
            if is_finite(*bits) {
                k + 1
            } else {
                k
            }
        },
        Value::Int(n) => {
            let text = format_int(*n);
            push_all(out, text.as_slice());
            k
        },
        Value::Array(xs) => {
            let ghost t = trees(xs@);
            assert(v@ == Tree::Array(t));
            if xs.len() == 0 {
                out.push(0x5B);
                out.push(0x5D);
                assert(out@ =~= old(out)@ + human(v@, indent as nat, prefix@, tx, k as int));
                k
            } else if xs.len() == 1 {
                assert(t[0] == xs@[0]@);
                assert(items_bits(t, 1) =~= finite_bits(t[0])) by {
                    assert(items_bits(t, 0) =~= Seq::<u64>::empty());
                }
                out.push(0x5B);
                let next = push_human(out, &xs[0], indent, prefix, texts, k);
                out.push(0x5D);
                assert(out@ =~= old(out)@ + human(v@, indent as nat, prefix@, tx, k as int));
                next
            } else {
                push_open(out, 0x5B, indent);
                let next = push_items(out, xs, indent, prefix, texts, k);
                push_close(out, 0x5D, indent, prefix);
                assert(out@ =~= old(out)@ + human(v@, indent as nat, prefix@, tx, k as int));
                next
            }
        },
        Value::Mapping(es) => {
            let ghost t = tree_entries(es@);
            assert(v@ == Tree::Mapping(t));
            if es.len() == 0 {
                out.push(0x7B);
                out.push(0x7D);
                assert(out@ =~= old(out)@ + human(v@, indent as nat, prefix@, tx, k as int));
                k
            } else if es.len() == 1 {
                assert(t[0] == (es@[0].0@, es@[0].1@));
                assert(entries_bits(t, 1) =~= finite_bits(t[0].0) + finite_bits(t[0].1)) by {
                    assert(entries_bits(t, 0) =~= Seq::<u64>::empty());
                }
                out.push(0x7B);
                let mid = push_human(out, &es[0].0, indent, prefix, texts, k);
                push_colon(out, indent);
                let next = push_human(out, &es[0].1, indent, prefix, texts, mid);
                out.push(0x7D);
                assert(out@ =~= old(out)@ + human(v@, indent as nat, prefix@, tx, k as int));
                next
            } else {
                push_open(out, 0x7B, indent);
                let next = push_entries(out, es, indent, prefix, texts, k);
                push_close(out, 0x7D, indent, prefix);
                assert(out@ =~= old(out)@ + human(v@, indent as nat, prefix@, tx, k as int));
                next
            }
        },
    }
}

/// Appends the texts of the items of an array of more than one item.
fn push_items(
    out: &mut Vec<u8>,
    xs: &Vec<Value>,
    indent: usize,
    prefix: &[u8],
    texts: &[Vec<u8>],
    k: usize,
) -> (next: usize)
    requires
        k + items_bits(trees(xs@), xs@.len()).len() <= texts@.len(),
    ensures
        final(out)@ == old(out)@ + human_items(
            trees(xs@),
            indent as nat,
            prefix@,
            views(texts@),
            k as int,
            0,
        ),
        next == k + items_bits(trees(xs@), xs@.len()).len(),
    decreases xs, 1nat,
{
    let ghost t = trees(xs@);
    let ghost tx = views(texts@);
    let inner = inner_prefix(indent, prefix);
    let mut at: usize = k;
    let mut i: usize = 0;
    assert(items_bits(t, 0) =~= Seq::<u64>::empty());
    while i < xs.len()
        invariant
            0 <= i <= xs.len(),
            t == trees(xs@),
            tx == views(texts@),
            inner@ == item_prefix(indent as nat, prefix@),
            at == k + items_bits(t, i as nat).len(),
            k + items_bits(t, xs@.len()).len() <= texts@.len(),
            old(out)@ + human_items(t, indent as nat, prefix@, tx, k as int, 0) == out@
                + human_items(t, indent as nat, prefix@, tx, at as int, i as int),
        decreases xs.len() - i,
    {
        assert(t[i as int] == xs@[i as int]@);
        proof {
            lemma_items_bits_grow(t, (i + 1) as nat, xs.len() as nat);
        }
        let ghost before = out@;
        push_before_item(out, indent, inner.as_slice(), i);
        let next = push_human(out, &xs[i], indent, inner.as_slice(), texts, at);
        push_after_item(out, indent);
        assert(before + human_items(t, indent as nat, prefix@, tx, at as int, i as int) =~= out@
            + human_items(t, indent as nat, prefix@, tx, next as int, i + 1));
        at = next;
        i = i + 1;
    }
    assert(out@ + human_items(t, indent as nat, prefix@, tx, at as int, i as int) =~= out@);
    at
}

/// Appends the texts of the entries of a map of more than one entry.
fn push_entries(
    out: &mut Vec<u8>,
    es: &Vec<(Value, Value)>,
    indent: usize,
    prefix: &[u8],
    texts: &[Vec<u8>],
    k: usize,
) -> (next: usize)
    requires
        k + entries_bits(tree_entries(es@), es@.len()).len() <= texts@.len(),
    ensures
        final(out)@ == old(out)@ + human_entries(
            tree_entries(es@),
            indent as nat,
            prefix@,
            views(texts@),
            k as int,
            0,
        ),
        next == k + entries_bits(tree_entries(es@), es@.len()).len(),
    decreases es, 1nat,
{
    let ghost t = tree_entries(es@);
    let ghost tx = views(texts@);
    let inner = inner_prefix(indent, prefix);
    let mut at: usize = k;
    let mut i: usize = 0;
    assert(entries_bits(t, 0) =~= Seq::<u64>::empty());
    while i < es.len()
        invariant
            0 <= i <= es.len(),
            t == tree_entries(es@),
            tx == views(texts@),
            inner@ == item_prefix(indent as nat, prefix@),
            at == k + entries_bits(t, i as nat).len(),
            k + entries_bits(t, es@.len()).len() <= texts@.len(),
            old(out)@ + human_entries(t, indent as nat, prefix@, tx, k as int, 0) == out@
                + human_entries(t, indent as nat, prefix@, tx, at as int, i as int),
        decreases es.len() - i,
    {
        assert(t[i as int] == (es@[i as int].0@, es@[i as int].1@));
        proof {
            lemma_entries_bits_grow(t, (i + 1) as nat, es.len() as nat);
        }
        let ghost before = out@;
        push_before_item(out, indent, inner.as_slice(), i);
        let mid = push_human(out, &es[i].0, indent, inner.as_slice(), texts, at);
        push_colon(out, indent);
        let next = push_human(out, &es[i].1, indent, inner.as_slice(), texts, mid);
        push_after_item(out, indent);
        assert(before + human_entries(t, indent as nat, prefix@, tx, at as int, i as int) =~= out@
            + human_entries(t, indent as nat, prefix@, tx, next as int, i + 1));
        at = next;
        i = i + 1;
    }
    assert(out@ + human_entries(t, indent as nat, prefix@, tx, at as int, i as int) =~= out@);
    at
}

/// More items have no fewer finite floats.
pub proof fn lemma_items_bits_grow(xs: Seq<Tree>, n: nat, m: nat)
    requires
        n <= m <= xs.len(),
    ensures
        items_bits(xs, n).len() <= items_bits(xs, m).len(),
    decreases m,
{
    if n < m {
        lemma_items_bits_grow(xs, n, (m - 1) as nat);
    }
}

/// More entries have no fewer finite floats.
pub proof fn lemma_entries_bits_grow(es: Seq<(Tree, Tree)>, n: nat, m: nat)
    requires
        n <= m <= es.len(),
    ensures
        entries_bits(es, n).len() <= entries_bits(es, m).len(),
    decreases m,
{
    if n < m {
        lemma_entries_bits_grow(es, n, (m - 1) as nat);
    }
}

/// Whether a text is a decimal float literal without underscores: the decoder reads the
/// whole of it as a float with this text.
pub open spec fn float_literal(t: Seq<u8>) -> bool {
    crate::human::lex::lex_float(t, 0) == Ok::<
        (crate::human::lex::FloatText, int),
        (int, crate::human::de::DecodeError),
    >((crate::human::lex::FloatText::Decimal(t), t.len() as int))
}

/// Whether the table can stand for the finite floats of the value: it has one text for
/// each, and every text is a decimal float literal.
pub open spec fn texts_accepted(t: Tree, texts: Seq<Seq<u8>>) -> bool {
    texts.len() == finite_bits(t).len() && forall|i: int|
        0 <= i < texts.len() ==> float_literal(#[trigger] texts[i])
}

/// Whether the text is a decimal float literal (see [`float_literal`]).
pub fn is_float_literal(text: &[u8]) -> (r: bool)
    ensures
        r == float_literal(text@),
{
    match crate::human::lex::read_float(text, 0) {
        Ok((crate::human::lex::FloatLiteral::Decimal(d), end)) => end == text.len()
            && crate::compact::de::same_bytes(d.as_slice(), text),
        _ => false,
    }
}

/// Whether every text of the table is a decimal float literal.
pub fn all_float_literals(float_texts: &[Vec<u8>]) -> (r: bool)
    ensures
        r == (forall|i: int|
            0 <= i < float_texts@.len() ==> float_literal(#[trigger] views(float_texts@)[i])),
{
    let mut i: usize = 0;
    while i < float_texts.len()
        invariant
            0 <= i <= float_texts.len(),
            forall|j: int| 0 <= j < i ==> float_literal(#[trigger] views(float_texts@)[j]),
        decreases float_texts.len() - i,
    {
        if !is_float_literal(float_texts[i].as_slice()) {
            assert(!float_literal(views(float_texts@)[i as int]));
            return false;
        }
        assert(float_literal(views(float_texts@)[i as int]));
        i = i + 1;
    }
    true
}

/// The human-readable text of a valid value. `float_texts` holds the decimal texts of the
/// finite floats of the value, in the order in which they stand (see [`finite_floats`]); a
/// table of another length, or with a text that is no decimal float literal, is refused.
/// With an indentation of 0 the text is one line. The decoder reads the text up to its end,
/// finds the texts of the table as its decimal float literals, and gives the value where
/// these are taken for the floats that they were written for.
pub fn to_vec(value: &Value, indentation: usize, float_texts: &[Vec<u8>]) -> (r: Result<
    Vec<u8>,
    EncodeError,
>)
    requires
        value.wf(),
    ensures
        texts_accepted(value@, views(float_texts@)) ==> r.is_ok() && r.unwrap()@ == human(
            value@,
            indentation as nat,
            Seq::empty(),
            views(float_texts@),
            0,
        ) && crate::human::laws::read_back(r.unwrap()@, value@, views(float_texts@)),
        !texts_accepted(value@, views(float_texts@)) ==> r == Err::<Vec<u8>, EncodeError>(
            EncodeError::FloatTexts,
        ),
{
    let needed = finite_floats(value);
    if needed.len() != float_texts.len() || !all_float_literals(float_texts) {
        return Err(EncodeError::FloatTexts);
    }
    proof {
        crate::human::laws::law_human_round_trip(
            *value,
            indentation as nat,
            views(float_texts@),
        );
    }
    let mut out: Vec<u8> = Vec::new();
    let prefix: Vec<u8> = Vec::new();
    let _end = push_human(&mut out, value, indentation, prefix.as_slice(), float_texts, 0);
    assert(prefix@ =~= Seq::<u8>::empty());
    assert(out@ =~= human(value@, indentation as nat, Seq::empty(), views(float_texts@), 0));
    Ok(out)
}

/// The upper-case hexadecimal digit for a number below 16.
pub open spec fn hex_upper(d: nat) -> u8 {
    if d < 10 {
        (0x30 + d) as u8
    } else {
        (0x37 + d) as u8
    }
}

/// What a byte of a string is written as between the quotes: `\0`, `\n`, `\r` and `\t`
/// for these four, `\{HH}` with two upper-case hexadecimal digits for the other bytes below
/// 0x20 and for 0x7F, a backslash before a backslash and before a quote, and any other byte
/// as it is.
pub open spec fn escape_byte(b: u8) -> Seq<u8> {
    if b == 0x00 {
        seq![0x5Cu8, 0x30u8]
    } else if b == 0x0A {
        seq![0x5Cu8, 0x6Eu8]
    } else if b == 0x0D {
        seq![0x5Cu8, 0x72u8]
    } else if b == 0x09 {
        seq![0x5Cu8, 0x74u8]
    } else if b < 0x20 || b == 0x7F {
        seq![0x5Cu8, 0x7Bu8, hex_upper((b / 16) as nat), hex_upper((b % 16) as nat), 0x7Du8]
    } else if b == 0x5C {
        seq![0x5Cu8, 0x5Cu8]
    } else if b == 0x22 {
        seq![0x5Cu8, 0x22u8]
    } else {
        seq![b]
    }
}

/// The bytes from index `i` on, each as `escape_byte` writes it.
pub open spec fn escaped(bytes: Seq<u8>, i: int) -> Seq<u8>
    decreases bytes.len() - i,
{
    if 0 <= i < bytes.len() {
        escape_byte(bytes[i]) + escaped(bytes, i + 1)
    } else {
        Seq::empty()
    }
}

/// The text of a string with the given UTF-8 bytes: between two quotes, with escapes.
pub open spec fn string_text(bytes: Seq<u8>) -> Seq<u8> {
    seq![0x22u8] + escaped(bytes, 0) + seq![0x22u8]
}

/// The text of a byte string: `@`, and the bytes as an array of ints.
pub open spec fn bytes_text(bytes: Seq<u8>, indent: nat) -> Seq<u8> {
    seq![0x40u8] + human(
        Tree::Array(crate::compact::de::byte_items(bytes)),
        indent,
        Seq::empty(),
        Seq::empty(),
        0,
    )
}

/// An array of ints has no floats.
pub proof fn lemma_bytes_no_floats(bytes: Seq<u8>, n: nat)
    requires
        n <= bytes.len(),
    ensures
        items_bits(crate::compact::de::byte_items(bytes), n) == Seq::<u64>::empty(),
    decreases n,
{
    let xs = crate::compact::de::byte_items(bytes);
    if n > 0 {
        lemma_bytes_no_floats(bytes, (n - 1) as nat);
        assert(xs[n - 1] == Tree::Int(bytes[n - 1] as i64));
        assert(finite_bits(xs[n - 1]) =~= Seq::<u64>::empty());
        assert(items_bits(xs, n) == items_bits(xs, (n - 1) as nat) + finite_bits(xs[n - 1]));
        assert(items_bits(xs, n) =~= Seq::<u64>::empty());
    } else {
        assert(items_bits(xs, n) =~= Seq::<u64>::empty());
    }
}

/// Appends the text of a string with the given bytes (see [`string_text`]).
pub fn push_string(out: &mut Vec<u8>, bytes: &[u8])
    ensures
        final(out)@ == old(out)@ + string_text(bytes@),
{
    out.push(0x22);
    let ghost quoted = out@;
    let mut i: usize = 0;
    while i < bytes.len()
        invariant
            0 <= i <= bytes.len(),
            quoted + escaped(bytes@, 0) == out@ + escaped(bytes@, i as int),
        decreases bytes.len() - i,
    {
        let ghost before = out@;
        let b = bytes[i];
        if b == 0x00 {
            out.push(0x5C);
            out.push(0x30);
        } else if b == 0x0A {
            out.push(0x5C);
            out.push(0x6E);
        } else if b == 0x0D {
            out.push(0x5C);
            out.push(0x72);
        } else if b == 0x09 {
            out.push(0x5C);
            out.push(0x74);
        } else if b < 0x20 || b == 0x7F {
            out.push(0x5C);
            out.push(0x7B);
            let hi = b / 16;
            let lo = b % 16;
            out.push(
                if hi < 10 {
                    0x30 + hi
                } else {
                    0x37 + hi
                },
            );
            out.push(
                if lo < 10 {
                    0x30 + lo
                } else {
                    0x37 + lo
                },
            );
            out.push(0x7D);
        } else if b == 0x5C {
            out.push(0x5C);
            out.push(0x5C);
        } else if b == 0x22 {
            out.push(0x5C);
            out.push(0x22);
        } else {
            out.push(b);
        }
        assert(out@ =~= before + escape_byte(b));
        assert(before + escaped(bytes@, i as int) =~= out@ + escaped(bytes@, i + 1));
        i = i + 1;
    }
    assert(out@ + escaped(bytes@, i as int) =~= out@);
    out.push(0x22);
    assert(out@ =~= old(out)@ + string_text(bytes@));
}

/// A structure that serializes valuable values in the human-readable encoding, kind by
/// kind.
pub struct VVSerializer {
    out: Vec<u8>,
    indentation: usize,
    prefix: Vec<u8>,
}

/// What stands before an item of an open collection whose items stand apart and whose
/// items' lines begin with `line`: with an indent of 0, a comma and a space before all
/// items but the first; else the beginning of the item's line. Where `line` is
/// `item_prefix(indent, prefix)`, this is `before_item(indent, prefix, i)`, with `first` for
/// an `i` of 0.
pub open spec fn item_lead(indent: nat, line: Seq<u8>, first: bool) -> Seq<u8> {
    if indent == 0 {
        if first {
            Seq::empty()
        } else {
            seq![0x2Cu8, 0x20u8]
        }
    } else {
        line
    }
}

/// The beginning of the line of a collection whose items' lines begin with `line`:
/// `indent` bytes less.
pub open spec fn outer_line(indent: nat, line: Seq<u8>) -> Seq<u8> {
    if line.len() >= indent {
        line.take(line.len() - indent)
    } else {
        Seq::empty()
    }
}

impl View for VVSerializer {
    type V = Seq<u8>;

    closed spec fn view(&self) -> Seq<u8> {
        self.out@
    }
}

impl VVSerializer {
    /// The number of spaces for each level of indentation; 0 for one line.
    pub closed spec fn indent(&self) -> nat {
        self.indentation as nat
    }

    /// What the lines of the items of the collection that is being written begin with;
    /// empty outside of collections.
    pub closed spec fn line(&self) -> Seq<u8> {
        self.prefix@
    }

    /// A serializer that appends to `out`. Collections of more than one item are written on
    /// several lines if `indentation` is greater than zero.
    pub fn new(out: Vec<u8>, indentation: usize) -> (s: Self)
        ensures
            s@ == out@,
            s.indent() == indentation,
            s.line() == Seq::<u8>::empty(),
    {
        VVSerializer { out, indentation, prefix: Vec::new() }
    }

    /// What has been written.
    pub fn into_vec(self) -> (out: Vec<u8>)
        ensures
            out@ == self@,
    {
        self.out
    }

    pub fn serialize_bool(&mut self, v: bool)
        ensures
            final(self)@ == old(self)@ + human(Tree::Bool(v), 0, Seq::empty(), Seq::empty(), 0),
            final(self).indent() == old(self).indent(),
            final(self).line() == old(self).line(),
    {
        if v {
            self.out.push(0x74);
            self.out.push(0x72);
            self.out.push(0x75);
            self.out.push(0x65);
        } else {
            self.out.push(0x66);
            self.out.push(0x61);
            self.out.push(0x6C);
            self.out.push(0x73);
            self.out.push(0x65);
        }
        assert(self.out@ =~= old(self)@ + human(
            Tree::Bool(v),
            0,
            Seq::empty(),
            Seq::empty(),
            0,
        ));
    }

    pub fn serialize_i8(&mut self, v: i8)
        ensures
            final(self)@ == old(self)@ + int_text(v as int),
            final(self).indent() == old(self).indent(),
            final(self).line() == old(self).line(),
    {
        self.serialize_i64(v as i64)
    }

    pub fn serialize_i16(&mut self, v: i16)
        ensures
            final(self)@ == old(self)@ + int_text(v as int),
            final(self).indent() == old(self).indent(),
            final(self).line() == old(self).line(),
    {
        self.serialize_i64(v as i64)
    }

    pub fn serialize_i32(&mut self, v: i32)
        ensures
            final(self)@ == old(self)@ + int_text(v as int),
            final(self).indent() == old(self).indent(),
            final(self).line() == old(self).line(),
    {
        self.serialize_i64(v as i64)
    }

    pub fn serialize_u8(&mut self, v: u8)
        ensures
            final(self)@ == old(self)@ + int_text(v as int),
            final(self).indent() == old(self).indent(),
            final(self).line() == old(self).line(),
    {
        self.serialize_i64(v as i64)
    }

    pub fn serialize_u16(&mut self, v: u16)
        ensures
            final(self)@ == old(self)@ + int_text(v as int),
            final(self).indent() == old(self).indent(),
            final(self).line() == old(self).line(),
    {
        self.serialize_i64(v as i64)
    }

    pub fn serialize_u32(&mut self, v: u32)
        ensures
            final(self)@ == old(self)@ + int_text(v as int),
            final(self).indent() == old(self).indent(),
            final(self).line() == old(self).line(),
    {
        self.serialize_i64(v as i64)
    }

    /// Writes an int in decimal.
    pub fn serialize_i64(&mut self, v: i64)
        ensures
            final(self)@ == old(self)@ + int_text(v as int),
            final(self).indent() == old(self).indent(),
            final(self).line() == old(self).line(),
    {
        let text = format_int(v);
        push_all(&mut self.out, text.as_slice());
    }

    /// Writes an unsigned integer as an int. One above 2^63 - 1 is refused, and nothing is
    /// written for it.
    pub fn serialize_u64(&mut self, v: u64) -> (r: Result<(), EncodeError>)
        ensures
            final(self).indent() == old(self).indent(),
            final(self).line() == old(self).line(),
            v <= 0x7FFF_FFFF_FFFF_FFFF ==> r == Ok::<(), EncodeError>(()) && final(self)@ == old(
                self,
            )@ + int_text(v as int),
            v > 0x7FFF_FFFF_FFFF_FFFF ==> r == Err::<(), EncodeError>(EncodeError::OutOfBoundsInt)
                && final(self)@ == old(self)@,
    {
        if v <= 0x7FFF_FFFF_FFFF_FFFF {
            self.serialize_i64(v as i64);
            Ok(())
        } else {
            Err(EncodeError::OutOfBoundsInt)
        }
    }

    /// Writes the float with the given bits: `NaN`, `Inf` or `-Inf`, or for a finite float
    /// the given text, which is to be its decimal text. For a finite float a text that is no
    /// decimal float literal is refused, and nothing is written.
    pub fn serialize_f64(&mut self, bits: u64, text: &[u8]) -> (r: Result<(), EncodeError>)
        ensures
            final(self).indent() == old(self).indent(),
            final(self).line() == old(self).line(),
            !finite(bits) || float_literal(text@) ==> r == Ok::<(), EncodeError>(())
                && final(self)@ == old(self)@ + float_text(bits, seq![text@], 0),
            finite(bits) && !float_literal(text@) ==> r == Err::<(), EncodeError>(
                EncodeError::FloatTexts,
            ) && final(self)@ == old(self)@,
    {
        if is_finite(bits) && !is_float_literal(text) {
            return Err(EncodeError::FloatTexts);
        }
        if float_is_nan(bits) {
            self.out.push(0x4E);
            self.out.push(0x61);
            self.out.push(0x4E);
        } else if bits == INF_BITS {
            self.out.push(0x49);
            self.out.push(0x6E);
            self.out.push(0x66);
        } else if bits == NEG_INF_BITS {
            self.out.push(0x2D);
            self.out.push(0x49);
            self.out.push(0x6E);
            self.out.push(0x66);
        } else {
            push_all(&mut self.out, text);
        }
        assert(self.out@ =~= old(self)@ + float_text(bits, seq![text@], 0));
        Ok(())
    }

    /// Writes a char as a string of that char: between quotes and with escapes, the UTF-8
    /// encoding of the char.
    pub fn serialize_char(&mut self, v: char)
        ensures
            final(self)@ == old(self)@ + string_text(vstd::utf8::encode_utf8(seq![v])),
            final(self).indent() == old(self).indent(),
            final(self).line() == old(self).line(),
    {
        let mut bytes: Vec<u8> = Vec::new();
        crate::human::strings::push_scalar(&mut bytes, v as u32);
        assert(bytes@ =~= crate::human::strings::scalar_bytes(v as u32 as nat));
        proof {
            crate::human::strings::lemma_char_bytes(v);
        }
        push_string(&mut self.out, bytes.as_slice());
    }

    /// Writes a string between quotes, with escapes (see [`string_text`]).
    pub fn serialize_str(&mut self, v: &str)
        ensures
            final(self)@ == old(self)@ + string_text(v.spec_bytes()),
            final(self).indent() == old(self).indent(),
            final(self).line() == old(self).line(),
    {
        push_string(&mut self.out, v.as_bytes());
    }

    /// Writes a byte string: `@`, and the bytes as an array of ints.
    pub fn serialize_bytes(&mut self, v: &[u8])
        ensures
            final(self)@ == old(self)@ + bytes_text(v@, old(self).indent()),
            final(self).indent() == old(self).indent(),
            final(self).line() == old(self).line(),
    {
        let mut items: Vec<Value> = Vec::with_capacity(v.len());
        let mut i: usize = 0;
        while i < v.len()
            invariant
                0 <= i <= v.len(),
                items@.len() == i,
                forall|j: int| 0 <= j < i ==> (#[trigger] items@[j])@ == Tree::Int(v@[j] as i64),
            decreases v.len() - i,
        {
            items.push(Value::Int(v[i] as i64));
            i = i + 1;
        }
        let array = Value::Array(items);
        proof {
            assert(trees(items@) =~= crate::compact::de::byte_items(v@));
            assert(array@ == Tree::Array(crate::compact::de::byte_items(v@)));
            lemma_bytes_no_floats(v@, v@.len());
        }
        self.out.push(0x40);
        let prefix: Vec<u8> = Vec::new();
        let texts: Vec<Vec<u8>> = Vec::new();
        assert(prefix@ =~= Seq::<u8>::empty());
        assert(views(texts@) =~= Seq::<Seq<u8>>::empty());
        let _end = push_human(
            &mut self.out,
            &array,
            self.indentation,
            prefix.as_slice(),
            texts.as_slice(),
            0,
        );
        assert(self.out@ =~= old(self)@ + bytes_text(v@, old(self).indent()));
    }

    /// Writes `None`: the string `None`.
    pub fn serialize_none(&mut self)
        ensures
            final(self)@ == old(self)@ + string_text(crate::human::api::none_text()),
            final(self).indent() == old(self).indent(),
            final(self).line() == old(self).line(),
    {
        let none: [u8; 4] = [0x4E, 0x6F, 0x6E, 0x65];
        assert(none@ =~= crate::human::api::none_text());
        push_string(&mut self.out, none.as_slice());
    }

    /// Writes nil.
    pub fn serialize_unit(&mut self)
        ensures
            final(self)@ == old(self)@ + human(Tree::Nil, 0, Seq::empty(), Seq::empty(), 0),
            final(self).indent() == old(self).indent(),
            final(self).line() == old(self).line(),
    {
        self.out.push(0x6E);
        self.out.push(0x69);
        self.out.push(0x6C);
        assert(self.out@ =~= old(self)@ + human(Tree::Nil, 0, Seq::empty(), Seq::empty(), 0));
    }

    /// Writes the head of a variant with data: `{`, the name of the variant as a string, and
    /// a colon. The data is to follow, and after it `end_variant`.
    pub fn serialize_newtype_variant(&mut self, variant: &str)
        ensures
            final(self)@ == old(self)@ + seq![0x7Bu8] + string_text(variant.spec_bytes())
                + colon_text(old(self).indent()),
            final(self).indent() == old(self).indent(),
            final(self).line() == old(self).line(),
    {
        self.out.push(0x7B);
        push_string(&mut self.out, variant.as_bytes());
        push_colon(&mut self.out, self.indentation);
        assert(self.out@ =~= old(self)@ + seq![0x7Bu8] + string_text(variant.spec_bytes())
            + colon_text(old(self).indent()));
    }

    /// Writes the end of a variant with data: `}`.
    pub fn end_variant(&mut self)
        ensures
            final(self)@ == old(self)@ + seq![0x7Du8],
            final(self).indent() == old(self).indent(),
            final(self).line() == old(self).line(),
    {
        self.out.push(0x7D);
        assert(self.out@ =~= old(self)@ + seq![0x7Du8]);
    }

    /// Writes a valid value (see [`human`]). `float_texts` holds the decimal texts of the
    /// finite floats of the value; a table of another length, or with a text that is no
    /// decimal float literal, is refused, and nothing is written.
    pub fn serialize_value(&mut self, value: &Value, float_texts: &[Vec<u8>]) -> (r: Result<
        (),
        EncodeError,
    >)
        requires
            value.wf(),
        ensures
            final(self).indent() == old(self).indent(),
            final(self).line() == old(self).line(),
            texts_accepted(value@, views(float_texts@)) ==> r == Ok::<(), EncodeError>(())
                && final(self)@ == old(self)@ + human(
                value@,
                old(self).indent(),
                old(self).line(),
                views(float_texts@),
                0,
            ),
            !texts_accepted(value@, views(float_texts@)) ==> r == Err::<(), EncodeError>(
                EncodeError::FloatTexts,
            ) && final(self)@ == old(self)@,
    {
        let needed = finite_floats(value);
        if needed.len() != float_texts.len() || !all_float_literals(float_texts) {
            return Err(EncodeError::FloatTexts);
        }
        let _end = push_human(
            &mut self.out,
            value,
            self.indentation,
            self.prefix.as_slice(),
            float_texts,
            0,
        );
        Ok(())
    }

    /// Writes the colon between a key and its value.
    pub fn serialize_colon(&mut self)
        ensures
            final(self)@ == old(self)@ + colon_text(old(self).indent()),
            final(self).indent() == old(self).indent(),
            final(self).line() == old(self).line(),
    {
        push_colon(&mut self.out, self.indentation);
    }

    /// Writes the opening byte of a collection of `len` items, `None` where their number is
    /// not known, and says whether its items stand apart: they do unless the collection is
    /// known to hold at most one item. Items that stand apart begin lines of their own,
    /// `indent` spaces deeper, if `indent` is not 0.
    pub fn begin_collection(&mut self, opening: u8, len: Option<usize>) -> (apart: bool)
        ensures
            final(self).indent() == old(self).indent(),
            apart == !(len is Some && len->0 <= 1),
            apart ==> final(self)@ == old(self)@ + seq![opening] + after_open(old(self).indent())
                && final(self).line() == item_prefix(old(self).indent(), old(self).line()),
            !apart ==> final(self)@ == old(self)@ + seq![opening] && final(self).line() == old(
                self,
            ).line(),
    {
        let apart = match len {
            Some(n) => n > 1,
            None => true,
        };
        if apart {
            push_open(&mut self.out, opening, self.indentation);
            push_repeat(&mut self.prefix, 0x20, self.indentation);
            assert(self.prefix@ =~= old(self).line() + spaces(self.indentation as nat));
            if self.indentation == 0 {
                assert(self.prefix@ =~= old(self).line());
            }
        } else {
            self.out.push(opening);
        }
        apart
    }

    /// Writes what stands before an item of the collection that is being written, if its
    /// items stand apart.
    pub fn begin_item(&mut self, apart: bool, first: bool)
        ensures
            final(self).indent() == old(self).indent(),
            final(self).line() == old(self).line(),
            apart ==> final(self)@ == old(self)@ + item_lead(
                old(self).indent(),
                old(self).line(),
                first,
            ),
            !apart ==> final(self)@ == old(self)@,
    {
        if apart {
            push_before_item(
                &mut self.out,
                self.indentation,
                self.prefix.as_slice(),
                if first {
                    0
                } else {
                    1
                },
            );
        }
    }

    /// Writes what stands after an item of the collection that is being written, if its
    /// items stand apart.
    pub fn end_item(&mut self, apart: bool)
        ensures
            final(self).indent() == old(self).indent(),
            final(self).line() == old(self).line(),
            apart ==> final(self)@ == old(self)@ + after_item(old(self).indent()),
            !apart ==> final(self)@ == old(self)@,
    {
        if apart {
            push_after_item(&mut self.out, self.indentation);
        }
    }

    /// Writes the closing byte of the collection that is being written, on a line of its
    /// own if the items stand apart and `indent` is not 0.
    pub fn end_collection(&mut self, closing: u8, apart: bool)
        ensures
            final(self).indent() == old(self).indent(),
            apart ==> final(self).line() == outer_line(old(self).indent(), old(self).line())
                && final(self)@ == old(self)@ + before_close(
                old(self).indent(),
                final(self).line(),
            ) + seq![closing],
            !apart ==> final(self)@ == old(self)@ + seq![closing] && final(self).line() == old(
                self,
            ).line(),
    {
        if apart {
            let len = self.prefix.len();
            if len >= self.indentation {
                self.prefix.truncate(len - self.indentation);
                assert(self.prefix@ =~= outer_line(old(self).indent(), old(self).line()));
            } else {
                self.prefix.truncate(0);
                assert(self.prefix@ =~= outer_line(old(self).indent(), old(self).line()));
            }
            push_close(&mut self.out, closing, self.indentation, self.prefix.as_slice());
        } else {
            self.out.push(closing);
        }
    }
}

} // verus!

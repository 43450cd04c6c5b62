//! What holds of the human-readable codec: the decoder reads back what the encoder writes.
use crate::compact::laws::{lemma_stands_concat, stands_at};
use crate::human::de::{colon, item_start, parse, parse_entries, parse_items, DecodeError, Literal};
use crate::human::ser::{
    after_item, after_open, before_close, before_item, colon_text, entries_bits, finite,
    finite_bits, float_literal, human, human_entries, human_items, item_prefix, items_bits,
    lemma_entries_bits_grow, lemma_items_bits_grow, spaces, texts_accepted,
};
use crate::compact::laws::lemma_insert_above;
use crate::human::value::{entries_of, entries_texts, items_of, items_texts, value_of};
use crate::order::{entries_wf, key_below, Order};
use crate::value::{is_nan, Tree, Value, INF_BITS, NAN_BITS, NEG_INF_BITS, SIGN_BIT};
use crate::human::lex::{
    at, has_prefix, is_base_digit, lex_decimal, lex_float, lex_fraction, lex_number, run_end,
    run_value, skip_spaces, stripped, FloatText, NumberText,
};
use crate::parser_helper::spec_is_digit;
use crate::parser_helper::spec_is_ws;
use crate::text::{digits, digits_value, int_text, lemma_digits, lemma_quotient_less};
use vstd::prelude::*;

verus! {

/// Whether a value may end before the offset: the input ends there, or a comma, a colon, a
/// closing bracket or brace, a space or a newline stands there.
pub open spec fn delimited(s: Seq<u8>, p: int) -> bool {
    match at(s, p) {
        None => true,
        Some(b) => b == 0x2C || b == 0x3A || b == 0x5D || b == 0x7D || b == 0x20 || b == 0x0A,
    }
}

/// Whether all bytes are spaces or newlines.
pub open spec fn blank(b: Seq<u8>) -> bool {
    forall|i: int| 0 <= i < b.len() ==> #[trigger] b[i] == 0x20 || b[i] == 0x0A
}

/// Whether a byte stands at the offset that is no whitespace and does not begin a comment.
pub open spec fn solid(s: Seq<u8>, p: int) -> bool {
    match at(s, p) {
        None => false,
        Some(b) => !spec_is_ws(b) && b != 0x23,
    }
}

/// Whether a value may begin at the offset: a byte stands there that is no whitespace, does
/// not begin a comment, and is no comma and no closing bracket or brace.
pub open spec fn begins(s: Seq<u8>, p: int) -> bool {
    match at(s, p) {
        None => false,
        Some(b) => !spec_is_ws(b) && b != 0x23 && b != 0x2C && b != 0x5D && b != 0x7D,
    }
}

/// Whitespace is skipped up to the byte that is none.
pub proof fn lemma_skip_blank(s: Seq<u8>, pos: int, b: Seq<u8>)
    requires
        stands_at(s, pos, b),
        blank(b),
        solid(s, pos + b.len()) || pos + b.len() == s.len(),
    ensures
        skip_spaces(s, pos) == Ok::<((), int), (int, DecodeError)>(((), pos + b.len())),
    decreases b.len(),
{
    if b.len() > 0 {
        assert(s.subrange(pos, pos + b.len())[0] == b[0]);
        let rest = b.subrange(1, b.len() as int);
        assert(s.subrange(pos + 1, pos + 1 + rest.len()) =~= rest) by {
            assert forall|i: int| 0 <= i < rest.len() implies s.subrange(
                pos + 1,
                pos + 1 + rest.len(),
            )[i] == rest[i] by {
                assert(s.subrange(pos, pos + b.len())[i + 1] == b[i + 1]);
            }
        }
        assert forall|i: int| 0 <= i < rest.len() implies #[trigger] rest[i] == 0x20 || rest[i]
            == 0x0A by {
            assert(rest[i] == b[i + 1]);
        }
        lemma_skip_blank(s, pos + 1, rest);
    }
}

/// A run of decimal digits that ends before a byte that is no digit and no underscore ends
/// there, and stands for the number of the digits.
pub proof fn lemma_run_of_digits(s: Seq<u8>, pos: int, ds: Seq<u8>)
    requires
        stands_at(s, pos, ds),
        forall|i: int| 0 <= i < ds.len() ==> is_base_digit(#[trigger] ds[i], 10),
        delimited(s, pos + ds.len()),
    ensures
        run_end(s, pos, 10) == pos + ds.len(),
        run_value(s, pos, pos + ds.len(), 10) == digits_value(ds, 10),
    decreases ds.len(),
{
    lemma_run_end_here(s, pos, ds, 0);
    lemma_run_value_here(s, pos, ds, ds.len() as int);
    assert(ds.subrange(0, ds.len() as int) =~= ds);
}

proof fn lemma_run_end_here(s: Seq<u8>, pos: int, ds: Seq<u8>, i: int)
    requires
        stands_at(s, pos, ds),
        forall|j: int| 0 <= j < ds.len() ==> is_base_digit(#[trigger] ds[j], 10),
        delimited(s, pos + ds.len()),
        0 <= i <= ds.len(),
    ensures
        run_end(s, pos + i, 10) == pos + ds.len(),
    decreases ds.len() - i,
{
    if i < ds.len() {
        assert(s.subrange(pos, pos + ds.len())[i] == ds[i]);
        lemma_run_end_here(s, pos, ds, i + 1);
    }
}

proof fn lemma_run_value_here(s: Seq<u8>, pos: int, ds: Seq<u8>, n: int)
    requires
        stands_at(s, pos, ds),
        forall|j: int| 0 <= j < ds.len() ==> is_base_digit(#[trigger] ds[j], 10),
        0 <= n <= ds.len(),
    ensures
        run_value(s, pos, pos + n, 10) == digits_value(ds.subrange(0, n), 10),
    decreases n,
{
    if n > 0 {
        lemma_run_value_here(s, pos, ds, n - 1);
        let d = ds.subrange(0, n);
        assert(d.drop_last() =~= ds.subrange(0, n - 1));
        assert(d.last() == ds[n - 1]);
        assert(s.subrange(pos, pos + ds.len())[n - 1] == ds[n - 1]);
        assert(is_base_digit(ds[n - 1], 10));
    } else {
        assert(ds.subrange(0, 0).len() == 0);
    }
}

/// The digits of a number in base ten are decimal digits.
pub proof fn lemma_decimal_digits(n: nat)
    ensures
        digits(n, 10).len() >= 1,
        forall|i: int| 0 <= i < digits(n, 10).len() ==> is_base_digit(#[trigger] digits(n, 10)[i], 10),
        digits_value(digits(n, 10), 10) == n,
    decreases n,
{
    lemma_digits(n, 10);
    if n >= 10 {
        lemma_quotient_less(n, 10);
        lemma_decimal_digits(n / 10);
        let d = digits(n, 10);
        assert forall|i: int| 0 <= i < d.len() implies is_base_digit(#[trigger] d[i], 10) by {
            if i < d.len() - 1 {
                assert(d[i] == digits(n / 10, 10)[i]);
            }
        }
    }
}

/// The decimal text of an int, before a delimiter, is read as a number that is this int.
pub proof fn lemma_number_of_int_text(s: Seq<u8>, pos: int, n: i64)
    requires
        stands_at(s, pos, int_text(n as int)),
        delimited(s, pos + int_text(n as int).len()),
    ensures
        lex_number(s, pos) == Ok::<(NumberText, int), (int, DecodeError)>(
            (NumberText::I(n), pos + int_text(n as int).len()),
        ),
        begins(s, pos),
{
    let t = int_text(n as int);
    let m: nat = if n < 0 {
        (-(n as int)) as nat
    } else {
        n as nat
    };
    let ds = digits(m, 10);
    lemma_decimal_digits(m);
    assert(s.subrange(pos, pos + t.len())[0] == t[0]);
    if n < 0 {
        lemma_stands_concat(s, pos, seq![0x2Du8], ds);
        assert(s.subrange(pos + 1, pos + 1 + ds.len())[0] == ds[0]);
        lemma_run_of_digits(s, pos + 1, ds);
        assert(is_base_digit(ds[0], 10));
        assert(lex_decimal(s, pos + 1, true, true) == Ok::<(int, int), (int, DecodeError)>(
            (n as int, pos + 1 + ds.len()),
        ));
    } else {
        lemma_run_of_digits(s, pos, ds);
        assert(is_base_digit(ds[0], 10));
        if ds.len() >= 2 {
            assert(s.subrange(pos, pos + ds.len())[1] == ds[1]);
            assert(is_base_digit(ds[1], 10));
        }
        assert(!has_prefix(s, pos, 0x78));
        assert(!has_prefix(s, pos, 0x62));
        assert(lex_decimal(s, pos, false, false) == Ok::<(int, int), (int, DecodeError)>(
            (n as int, pos + ds.len()),
        ));
    }
}

/// Whether a text is a decimal float literal: wherever it stands before a delimiter, it is
/// read as a number that is a float with this text.
pub open spec fn is_float_text(t: Seq<u8>) -> bool {
    forall|s: Seq<u8>, pos: int|
        stands_at(s, pos, t) && delimited(s, pos + t.len()) ==> #[trigger] lex_number(s, pos)
            == Ok::<(NumberText, int), (int, DecodeError)>(
            (NumberText::F(FloatText::Decimal(t)), pos + t.len()),
        ) && begins(s, pos)
}

/// The float as it is written for a float with the given bits.
pub open spec fn written_float(bits: u64, texts: Seq<Seq<u8>>, k: int) -> FloatText {
    if is_nan(bits) {
        FloatText::NaN
    } else if bits == INF_BITS {
        FloatText::Inf
    } else if bits == NEG_INF_BITS {
        FloatText::NegInf
    } else {
        FloatText::Decimal(texts[k])
    }
}

/// The value as the encoder writes it, where `texts` holds the texts of its finite floats
/// from the one at index `k` on.
pub open spec fn written(t: Tree, texts: Seq<Seq<u8>>, k: int) -> Literal
    decreases t, 0nat, 0nat,
{
    match t {
        Tree::Nil => Literal::Nil,
        Tree::Bool(b) => Literal::Bool(b),
        Tree::Float(bits) => Literal::Float(written_float(bits, texts, k)),
        Tree::Int(n) => Literal::Int(n),
        Tree::Array(xs) => Literal::Array(written_items(xs, texts, k, xs.len())),
        Tree::Mapping(es) => Literal::Mapping(written_entries(es, texts, k, es.len())),
    }
}

/// The first `n` items as the encoder writes them.
pub open spec fn written_items(xs: Seq<Tree>, texts: Seq<Seq<u8>>, k: int, n: nat) -> Seq<Literal>
    decreases xs, 1nat, n,
{
    if n == 0 || n > xs.len() {
        Seq::empty()
    } else {
        written_items(xs, texts, k, (n - 1) as nat).push(
            written(xs[n - 1], texts, k + items_bits(xs, (n - 1) as nat).len()),
        )
    }
}

/// The first `n` entries as the encoder writes them.
pub open spec fn written_entries(es: Seq<(Tree, Tree)>, texts: Seq<Seq<u8>>, k: int, n: nat) -> Seq<
    (Literal, Literal),
>
    decreases es, 1nat, n,
{
    if n == 0 || n > es.len() {
        Seq::empty()
    } else {
        let at = k + entries_bits(es, (n - 1) as nat).len();
        written_entries(es, texts, k, (n - 1) as nat).push(
            (
                written(es[n - 1].0, texts, at),
                written(es[n - 1].1, texts, at + finite_bits(es[n - 1].0).len()),
            ),
        )
    }
}

/// The table holds a decimal float literal for each of the `n` finite floats from index `k`
/// on.
pub open spec fn texts_fit(texts: Seq<Seq<u8>>, k: int, n: int) -> bool {
    0 <= k && k + n <= texts.len() && forall|i: int|
        k <= i < k + n ==> is_float_text(#[trigger] texts[i])
}

/// A decimal float literal has at least one byte.
pub proof fn lemma_float_text_len(t: Seq<u8>)
    requires
        is_float_text(t),
    ensures
        t.len() >= 1,
{
    assert(t.subrange(0, t.len() as int) =~= t);
    assert(stands_at(t, 0, t));
    assert(delimited(t, t.len() as int));
    let r = lex_number(t, 0);
    assert(begins(t, 0));
}

/// What stands between the parser's place before the item `i` of a collection of more than
/// one item and the item: before the first item what follows the opening byte, and before
/// the others what follows an item; and then what stands before the item.
pub open spec fn lead(indent: nat, prefix: Seq<u8>, i: int) -> Seq<u8> {
    if i == 0 {
        after_open(indent) + before_item(indent, prefix, 0)
    } else {
        after_item(indent) + before_item(indent, prefix, i)
    }
}

/// What stands between the parser's place after the last item of a collection of more than
/// one item and the closing byte.
pub open spec fn trail(indent: nat, prefix: Seq<u8>) -> Seq<u8> {
    after_item(indent) + before_close(indent, prefix)
}

/// The text of an array of more than one item from the parser's place before the item `i`
/// on, up to and with the closing bracket.
pub open spec fn tail_items(
    xs: Seq<Tree>,
    indent: nat,
    prefix: Seq<u8>,
    texts: Seq<Seq<u8>>,
    k: int,
    i: int,
) -> Seq<u8>
    decreases xs.len() - i,
{
    if 0 <= i < xs.len() {
        lead(indent, prefix, i) + human(xs[i], indent, item_prefix(indent, prefix), texts, k)
            + tail_items(xs, indent, prefix, texts, k + finite_bits(xs[i]).len(), i + 1)
    } else {
        trail(indent, prefix) + seq![0x5Du8]
    }
}

/// The text of the items from the item `i` on, what follows them and the closing bracket,
/// is the tail from the item `i` on without what follows the item before.
pub proof fn lemma_tail_items(
    xs: Seq<Tree>,
    indent: nat,
    prefix: Seq<u8>,
    texts: Seq<Seq<u8>>,
    k: int,
    i: int,
)
    requires
        0 <= i <= xs.len(),
        xs.len() >= 1,
    ensures
        (if i == 0 {
            after_open(indent)
        } else {
            after_item(indent)
        }) + human_items(xs, indent, prefix, texts, k, i) + before_close(indent, prefix) + seq![
            0x5Du8,
        ] == tail_items(xs, indent, prefix, texts, k, i),
    decreases xs.len() - i,
{
    let head = if i == 0 {
        after_open(indent)
    } else {
        after_item(indent)
    };
    if i < xs.len() {
        lemma_tail_items(xs, indent, prefix, texts, k + finite_bits(xs[i]).len(), i + 1);
        let item = human(xs[i], indent, item_prefix(indent, prefix), texts, k);
        let rest = human_items(xs, indent, prefix, texts, k + finite_bits(xs[i]).len(), i + 1);
        assert(head + (before_item(indent, prefix, i) + item + after_item(indent) + rest)
            + before_close(indent, prefix) + seq![0x5Du8] =~= (head + before_item(
            indent,
            prefix,
            i,
        )) + item + (after_item(indent) + rest + before_close(indent, prefix) + seq![0x5Du8]));
    } else {
        assert(head + human_items(xs, indent, prefix, texts, k, i) + before_close(indent, prefix)
            + seq![0x5Du8] =~= trail(indent, prefix) + seq![0x5Du8]);
    }
}

/// The text of a map of more than one entry from the parser's place before the entry `i`
/// on, up to and with the closing brace.
pub open spec fn tail_entries(
    es: Seq<(Tree, Tree)>,
    indent: nat,
    prefix: Seq<u8>,
    texts: Seq<Seq<u8>>,
    k: int,
    i: int,
) -> Seq<u8>
    decreases es.len() - i,
{
    if 0 <= i < es.len() {
        lead(indent, prefix, i) + human(es[i].0, indent, item_prefix(indent, prefix), texts, k)
            + colon_text(indent) + human(
            es[i].1,
            indent,
            item_prefix(indent, prefix),
            texts,
            k + finite_bits(es[i].0).len(),
        ) + tail_entries(
            es,
            indent,
            prefix,
            texts,
            k + finite_bits(es[i].0).len() + finite_bits(es[i].1).len(),
            i + 1,
        )
    } else {
        trail(indent, prefix) + seq![0x7Du8]
    }
}

/// The text of the entries from the entry `i` on, what follows them and the closing brace,
/// is the tail from the entry `i` on without what follows the entry before.
#[verifier::rlimit(40)]
pub proof fn lemma_tail_entries(
    es: Seq<(Tree, Tree)>,
    indent: nat,
    prefix: Seq<u8>,
    texts: Seq<Seq<u8>>,
    k: int,
    i: int,
)
    requires
        0 <= i <= es.len(),
        es.len() >= 1,
    ensures
        (if i == 0 {
            after_open(indent)
        } else {
            after_item(indent)
        }) + human_entries(es, indent, prefix, texts, k, i) + before_close(indent, prefix) + seq![
            0x7Du8,
        ] == tail_entries(es, indent, prefix, texts, k, i),
    decreases es.len() - i,
{
    let head = if i == 0 {
        after_open(indent)
    } else {
        after_item(indent)
    };
    if i < es.len() {
        let k2 = k + finite_bits(es[i].0).len() + finite_bits(es[i].1).len();
        lemma_tail_entries(es, indent, prefix, texts, k2, i + 1);
        let key = human(es[i].0, indent, item_prefix(indent, prefix), texts, k);
        let value = human(
            es[i].1,
            indent,
            item_prefix(indent, prefix),
            texts,
            k + finite_bits(es[i].0).len(),
        );
        let rest = human_entries(es, indent, prefix, texts, k2, i + 1);
        assert(head + (before_item(indent, prefix, i) + key + colon_text(indent) + value
            + after_item(indent) + rest) + before_close(indent, prefix) + seq![0x7Du8] =~= (head
            + before_item(indent, prefix, i)) + key + colon_text(indent) + value + (after_item(
            indent,
        ) + rest + before_close(indent, prefix) + seq![0x7Du8]));
    } else {
        assert(head + human_entries(es, indent, prefix, texts, k, i) + before_close(
            indent,
            prefix,
        ) + seq![0x7Du8] =~= trail(indent, prefix) + seq![0x7Du8]);
    }
}

/// Two runs of spaces and newlines, one after the other, are such a run.
pub proof fn lemma_blank_concat(a: Seq<u8>, b: Seq<u8>)
    requires
        blank(a),
        blank(b),
    ensures
        blank(a + b),
{
    assert forall|i: int| 0 <= i < (a + b).len() implies #[trigger] (a + b)[i] == 0x20 || (a
        + b)[i] == 0x0A by {
        if i < a.len() {
            assert(a[i] == 0x20 || a[i] == 0x0A);
        } else {
            assert(b[i - a.len()] == 0x20 || b[i - a.len()] == 0x0A);
        }
    }
}

/// What the lines of the items begin with is spaces.
pub proof fn lemma_item_prefix_blank(indent: nat, prefix: Seq<u8>)
    requires
        blank(prefix),
    ensures
        blank(item_prefix(indent, prefix)),
        blank(prefix + spaces(indent)),
{
    lemma_blank_concat(prefix, spaces(indent));
}

/// Where a value begins, the first item of a collection begins.
pub proof fn lemma_item_start_here(s: Seq<u8>, p: int, close: u8)
    requires
        begins(s, p),
        close == 0x5D || close == 0x7D,
    ensures
        item_start(s, p, true, close) == Ok::<(Option<int>, int), (int, DecodeError)>(
            (Some(p), p),
        ),
{
    assert(s.subrange(p, p) =~= Seq::<u8>::empty());
    lemma_skip_blank(s, p, Seq::empty());
}

/// Where the closing byte stands, the collection ends.
pub proof fn lemma_item_start_close(s: Seq<u8>, p: int, first: bool, close: u8)
    requires
        at(s, p) == Some(close),
        close == 0x5D || close == 0x7D,
    ensures
        item_start(s, p, first, close) == Ok::<(Option<int>, int), (int, DecodeError)>(
            (None, p + 1),
        ),
{
    assert(s.subrange(p, p) =~= Seq::<u8>::empty());
    lemma_skip_blank(s, p, Seq::empty());
}

/// After what stands before an item of a collection of more than one item, the item begins.
pub proof fn lemma_item_start_lead(
    s: Seq<u8>,
    pos: int,
    indent: nat,
    prefix: Seq<u8>,
    i: int,
    close: u8,
)
    requires
        0 <= i,
        stands_at(s, pos, lead(indent, prefix, i)),
        begins(s, pos + lead(indent, prefix, i).len()),
        blank(prefix),
        close == 0x5D || close == 0x7D,
    ensures
        item_start(s, pos, i == 0, close) == Ok::<(Option<int>, int), (int, DecodeError)>(
            (Some(pos + lead(indent, prefix, i).len()), pos + lead(indent, prefix, i).len()),
        ),
{
    let l = lead(indent, prefix, i);
    let end = pos + l.len();
    lemma_item_prefix_blank(indent, prefix);
    if i == 0 {
        if indent == 0 {
            assert(l =~= Seq::<u8>::empty());
        } else {
            assert(l =~= seq![0x0Au8] + (prefix + spaces(indent)));
            assert(blank(seq![0x0Au8]));
            lemma_blank_concat(seq![0x0Au8], prefix + spaces(indent));
        }
        lemma_skip_blank(s, pos, l);
    } else {
        let rest: Seq<u8> = if indent == 0 {
            seq![0x20u8]
        } else {
            seq![0x0Au8] + (prefix + spaces(indent))
        };
        assert(l =~= seq![0x2Cu8] + rest);
        if indent != 0 {
            assert(blank(seq![0x0Au8]));
            lemma_blank_concat(seq![0x0Au8], prefix + spaces(indent));
        }
        lemma_stands_concat(s, pos, seq![0x2Cu8], rest);
        assert(s.subrange(pos, pos + 1)[0] == 0x2Cu8);
        assert(s.subrange(pos, pos) =~= Seq::<u8>::empty());
        lemma_skip_blank(s, pos, Seq::empty());
        lemma_skip_blank(s, pos + 1, rest);
    }
}

/// After what stands after the last item of a collection of more than one item, the
/// collection ends.
pub proof fn lemma_item_start_trail(s: Seq<u8>, pos: int, indent: nat, prefix: Seq<u8>, close: u8)
    requires
        stands_at(s, pos, trail(indent, prefix) + seq![close]),
        blank(prefix),
        close == 0x5D || close == 0x7D,
    ensures
        item_start(s, pos, false, close) == Ok::<(Option<int>, int), (int, DecodeError)>(
            (None, pos + trail(indent, prefix).len() + 1),
        ),
{
    let t = trail(indent, prefix);
    lemma_stands_concat(s, pos, t, seq![close]);
    assert(s.subrange(pos + t.len(), pos + t.len() + 1)[0] == close);
    if indent == 0 {
        assert(t =~= Seq::<u8>::empty());
        lemma_item_start_close(s, pos, false, close);
    } else {
        let rest = seq![0x0Au8] + prefix;
        assert(t =~= seq![0x2Cu8] + rest);
        assert(blank(seq![0x0Au8]));
        lemma_blank_concat(seq![0x0Au8], prefix);
        lemma_stands_concat(s, pos, seq![0x2Cu8], rest);
        assert(s.subrange(pos, pos + 1)[0] == 0x2Cu8);
        assert(s.subrange(pos, pos) =~= Seq::<u8>::empty());
        lemma_skip_blank(s, pos, Seq::empty());
        lemma_skip_blank(s, pos + 1, rest);
    }
}

/// Parsing after whitespace is parsing where the whitespace ends.
pub proof fn lemma_parse_after_blank(s: Seq<u8>, pos: int, b: Seq<u8>)
    requires
        stands_at(s, pos, b),
        blank(b),
        solid(s, pos + b.len()),
    ensures
        parse(s, pos) == parse(s, pos + b.len()),
{
    lemma_skip_blank(s, pos, b);
    assert(s.subrange(pos + b.len(), pos + b.len()) =~= Seq::<u8>::empty());
    lemma_skip_blank(s, pos + b.len(), Seq::empty());
}

/// The colon, and the space after it, stand between a key and its value.
pub proof fn lemma_colon(s: Seq<u8>, pos: int, indent: nat)
    requires
        stands_at(s, pos, colon_text(indent)),
        begins(s, pos + colon_text(indent).len()),
    ensures
        colon(s, pos) == Ok::<((), int), (int, DecodeError)>(((), pos + 1)),
        parse(s, pos + 1) == parse(s, pos + colon_text(indent).len()),
{
    let c = colon_text(indent);
    assert(s.subrange(pos, pos + c.len())[0] == c[0]);
    assert(s.subrange(pos, pos) =~= Seq::<u8>::empty());
    lemma_skip_blank(s, pos, Seq::empty());
    if indent != 0 {
        assert(c =~= seq![0x3Au8] + seq![0x20u8]);
        lemma_stands_concat(s, pos, seq![0x3Au8], seq![0x20u8]);
        lemma_parse_after_blank(s, pos + 1, seq![0x20u8]);
    }
}

/// The first `n` items as written are `n` items.
pub proof fn lemma_written_len(xs: Seq<Tree>, es: Seq<(Tree, Tree)>, texts: Seq<Seq<u8>>, k: int, n: nat)
    ensures
        n <= xs.len() ==> written_items(xs, texts, k, n).len() == n,
        n <= es.len() ==> written_entries(es, texts, k, n).len() == n,
    decreases n,
{
    if n > 0 {
        lemma_written_len(xs, es, texts, k, (n - 1) as nat);
    }
}

/// The tail of a collection of more than one item begins with a comma or with the closing
/// byte, unless it begins before the first item.
pub proof fn lemma_tail_first(
    xs: Seq<Tree>,
    es: Seq<(Tree, Tree)>,
    indent: nat,
    prefix: Seq<u8>,
    texts: Seq<Seq<u8>>,
    k: int,
    i: int,
)
    requires
        i >= 1,
    ensures
        tail_items(xs, indent, prefix, texts, k, i).len() >= 1,
        tail_items(xs, indent, prefix, texts, k, i)[0] == 0x2C || tail_items(
            xs,
            indent,
            prefix,
            texts,
            k,
            i,
        )[0] == 0x5D,
        tail_entries(es, indent, prefix, texts, k, i).len() >= 1,
        tail_entries(es, indent, prefix, texts, k, i)[0] == 0x2C || tail_entries(
            es,
            indent,
            prefix,
            texts,
            k,
            i,
        )[0] == 0x7D,
{
    let l = lead(indent, prefix, i);
    let t = trail(indent, prefix);
    if indent == 0 {
        assert(l =~= seq![0x2Cu8, 0x20u8]);
        assert(t =~= Seq::<u8>::empty());
    } else {
        assert(l[0] == 0x2C);
        assert(t[0] == 0x2C);
    }
}

/// Where a text stands before a byte of another text, that byte is at its end.
pub proof fn lemma_next_byte(s: Seq<u8>, pos: int, a: Seq<u8>, b: Seq<u8>)
    requires
        stands_at(s, pos, a + b),
        b.len() >= 1,
    ensures
        at(s, pos + a.len()) == Some(b[0]),
        stands_at(s, pos, a),
        stands_at(s, pos + a.len(), b),
{
    lemma_stands_concat(s, pos, a, b);
    assert(s.subrange(pos + a.len(), pos + a.len() + b.len())[0] == b[0]);
}

/// The table holds a decimal float literal for each finite float of a part of the value.
pub proof fn lemma_texts_fit_part(texts: Seq<Seq<u8>>, k: int, n: int, from: int, count: int)
    requires
        texts_fit(texts, k, n),
        k <= from,
        0 <= count,
        from + count <= k + n,
    ensures
        texts_fit(texts, from, count),
{
}

/// What `lemma_parse_human` says: the text of the value has a byte, a value begins where it
/// stands, and the decoder reads it as the value as it was written, up to its end.
pub open spec fn reads_back(
    s: Seq<u8>,
    pos: int,
    t: Tree,
    indent: nat,
    prefix: Seq<u8>,
    texts: Seq<Seq<u8>>,
    k: int,
) -> bool {
    &&& human(t, indent, prefix, texts, k).len() >= 1
    &&& begins(s, pos)
    &&& parse(s, pos) == Ok::<(Literal, int), (int, DecodeError)>(
        (written(t, texts, k), pos + human(t, indent, prefix, texts, k).len()),
    )
}

/// Human round trip, for the text: the decoder reads the text of a value, before a
/// delimiter, as the value as it was written, up to the end of the text.
pub proof fn lemma_parse_human(
    s: Seq<u8>,
    pos: int,
    t: Tree,
    indent: nat,
    prefix: Seq<u8>,
    texts: Seq<Seq<u8>>,
    k: int,
)
    requires
        stands_at(s, pos, human(t, indent, prefix, texts, k)),
        delimited(s, pos + human(t, indent, prefix, texts, k).len()),
        blank(prefix),
        texts_fit(texts, k, finite_bits(t).len() as int),
    ensures
        reads_back(s, pos, t, indent, prefix, texts, k),
    decreases t, 0nat, 0int,
{
    match t {
        Tree::Array(xs) => {
            lemma_parse_array(s, pos, xs, indent, prefix, texts, k);
        },
        Tree::Mapping(es) => {
            lemma_parse_mapping(s, pos, es, indent, prefix, texts, k);
        },
        _ => {
            lemma_parse_scalar(s, pos, t, indent, prefix, texts, k);
        },
    }
}

#[verifier::rlimit(40)]
proof fn lemma_parse_scalar(
    s: Seq<u8>,
    pos: int,
    t: Tree,
    indent: nat,
    prefix: Seq<u8>,
    texts: Seq<Seq<u8>>,
    k: int,
)
    requires
        !(t is Array),
        !(t is Mapping),
        stands_at(s, pos, human(t, indent, prefix, texts, k)),
        delimited(s, pos + human(t, indent, prefix, texts, k).len()),
        texts_fit(texts, k, finite_bits(t).len() as int),
    ensures
        reads_back(s, pos, t, indent, prefix, texts, k),
{
    let text = human(t, indent, prefix, texts, k);
    assert(s.subrange(pos, pos) =~= Seq::<u8>::empty());
    match t {
        Tree::Nil => {
            assert(s.subrange(pos, pos + 3)[0] == text[0]);
            assert(s.subrange(pos, pos + 3)[1] == text[1]);
            assert(s.subrange(pos, pos + 3)[2] == text[2]);
            lemma_skip_blank(s, pos, Seq::empty());
        },
        Tree::Bool(b) => {
            let n = text.len() as int;
            assert(s.subrange(pos, pos + n)[0] == text[0]);
            assert(s.subrange(pos, pos + n)[1] == text[1]);
            assert(s.subrange(pos, pos + n)[2] == text[2]);
            assert(s.subrange(pos, pos + n)[3] == text[3]);
            if !b {
                assert(s.subrange(pos, pos + n)[4] == text[4]);
            }
            lemma_skip_blank(s, pos, Seq::empty());
        },
        Tree::Int(n) => {
            lemma_number_of_int_text(s, pos, n);
            lemma_decimal_digits(
                if n < 0 {
                    (-(n as int)) as nat
                } else {
                    n as nat
                },
            );
            assert(s.subrange(pos, pos + text.len())[0] == text[0]);
            lemma_skip_blank(s, pos, Seq::empty());
        },
        Tree::Float(bits) => {
            if finite(bits) {
                assert(finite_bits(t) =~= seq![bits]);
                assert(is_float_text(texts[k]));
                lemma_float_text_len(texts[k]);
                let r = lex_number(s, pos);
            } else {
                let n = text.len() as int;
                assert(s.subrange(pos, pos + n)[0] == text[0]);
                assert(s.subrange(pos, pos + n)[1] == text[1]);
                assert(s.subrange(pos, pos + n)[2] == text[2]);
                if bits == NEG_INF_BITS {
                    assert(s.subrange(pos, pos + n)[3] == text[3]);
                }
            }
            lemma_skip_blank(s, pos, Seq::empty());
        },
        _ => {},
    }
}

#[verifier::rlimit(40)]
proof fn lemma_parse_array(
    s: Seq<u8>,
    pos: int,
    xs: Seq<Tree>,
    indent: nat,
    prefix: Seq<u8>,
    texts: Seq<Seq<u8>>,
    k: int,
)
    requires
        stands_at(s, pos, human(Tree::Array(xs), indent, prefix, texts, k)),
        delimited(s, pos + human(Tree::Array(xs), indent, prefix, texts, k).len()),
        blank(prefix),
        texts_fit(texts, k, items_bits(xs, xs.len()).len() as int),
    ensures
        reads_back(s, pos, Tree::Array(xs), indent, prefix, texts, k),
    decreases xs, 2nat, 0int,
{
    let text = human(Tree::Array(xs), indent, prefix, texts, k);
    assert(s.subrange(pos, pos + text.len())[0] == text[0]);
    assert(s.subrange(pos, pos) =~= Seq::<u8>::empty());
    lemma_skip_blank(s, pos, Seq::empty());
    lemma_written_len(xs, Seq::empty(), texts, k, 0);
    if xs.len() == 0 {
        assert(s.subrange(pos, pos + 2)[1] == text[1]);
        lemma_item_start_close(s, pos + 1, true, 0x5D);
    } else if xs.len() == 1 {
        let item = human(xs[0], indent, prefix, texts, k);
        assert(text =~= seq![0x5Bu8] + (item + seq![0x5Du8]));
        lemma_stands_concat(s, pos, seq![0x5Bu8], item + seq![0x5Du8]);
        lemma_next_byte(s, pos + 1, item, seq![0x5Du8]);
        assert(items_bits(xs, 1) =~= finite_bits(xs[0])) by {
            assert(items_bits(xs, 0) =~= Seq::<u64>::empty());
        }
        lemma_parse_human(s, pos + 1, xs[0], indent, prefix, texts, k);
        lemma_item_start_here(s, pos + 1, 0x5D);
        lemma_item_start_close(s, pos + 1 + item.len(), false, 0x5D);
        lemma_written_len(xs, Seq::empty(), texts, k, 1);
        assert(items_bits(xs, 0).len() == 0);
        let one = Seq::<Literal>::empty().push(written(xs[0], texts, k));
        assert(written_items(xs, texts, k, 1) =~= one);
        assert(parse_items(s, pos + 1 + item.len(), one) == Ok::<
            (Seq<Literal>, int),
            (int, DecodeError),
        >((one, pos + 2 + item.len())));
        assert(parse_items(s, pos + 1, Seq::empty()) == Ok::<
            (Seq<Literal>, int),
            (int, DecodeError),
        >((one, pos + 2 + item.len())));
    } else {
        lemma_tail_items(xs, indent, prefix, texts, k, 0);
        let tail = tail_items(xs, indent, prefix, texts, k, 0);
        assert(text =~= seq![0x5Bu8] + tail);
        lemma_stands_concat(s, pos, seq![0x5Bu8], tail);
        assert(items_bits(xs, 0) =~= Seq::<u64>::empty());
        lemma_parse_tail_items(s, pos + 1, xs, indent, prefix, texts, k, 0);
        assert(written_items(xs, texts, k, 0) =~= Seq::<Literal>::empty());
    }
}

proof fn lemma_parse_mapping(
    s: Seq<u8>,
    pos: int,
    es: Seq<(Tree, Tree)>,
    indent: nat,
    prefix: Seq<u8>,
    texts: Seq<Seq<u8>>,
    k: int,
)
    requires
        stands_at(s, pos, human(Tree::Mapping(es), indent, prefix, texts, k)),
        delimited(s, pos + human(Tree::Mapping(es), indent, prefix, texts, k).len()),
        blank(prefix),
        texts_fit(texts, k, entries_bits(es, es.len()).len() as int),
    ensures
        reads_back(s, pos, Tree::Mapping(es), indent, prefix, texts, k),
    decreases es, 2nat, 0int,
{
    let text = human(Tree::Mapping(es), indent, prefix, texts, k);
    assert(s.subrange(pos, pos + text.len())[0] == text[0]);
    assert(s.subrange(pos, pos) =~= Seq::<u8>::empty());
    lemma_skip_blank(s, pos, Seq::empty());
    lemma_written_len(Seq::empty(), es, texts, k, 0);
    if es.len() == 0 {
        assert(s.subrange(pos, pos + 2)[1] == text[1]);
        lemma_item_start_close(s, pos + 1, true, 0x7D);
    } else if es.len() == 1 {
        lemma_parse_entry(s, pos, es, indent, prefix, texts, k);
    } else {
        lemma_tail_entries(es, indent, prefix, texts, k, 0);
        let tail = tail_entries(es, indent, prefix, texts, k, 0);
        assert(text =~= seq![0x7Bu8] + tail);
        lemma_stands_concat(s, pos, seq![0x7Bu8], tail);
        assert(entries_bits(es, 0) =~= Seq::<u64>::empty());
        lemma_parse_tail_entries(s, pos + 1, es, indent, prefix, texts, k, 0);
        assert(written_entries(es, texts, k, 0) =~= Seq::<(Literal, Literal)>::empty());
    }
}

/// The entries of a map of one entry are read back.
proof fn lemma_parse_entry(
    s: Seq<u8>,
    pos: int,
    es: Seq<(Tree, Tree)>,
    indent: nat,
    prefix: Seq<u8>,
    texts: Seq<Seq<u8>>,
    k: int,
)
    requires
        es.len() == 1,
        stands_at(s, pos, human(Tree::Mapping(es), indent, prefix, texts, k)),
        blank(prefix),
        texts_fit(texts, k, entries_bits(es, es.len()).len() as int),
    ensures
        parse_entries(s, pos + 1, false, Seq::empty()) == Ok::<
            (Seq<(Literal, Literal)>, int),
            (int, DecodeError),
        >(
            (
                written_entries(es, texts, k, 1),
                pos + human(Tree::Mapping(es), indent, prefix, texts, k).len(),
            ),
        ),
    decreases es, 1nat, 0int,
{
    let text = human(Tree::Mapping(es), indent, prefix, texts, k);
    let k2 = k + finite_bits(es[0].0).len();
    let pair = pair_text(es[0], indent, prefix, texts, k);
    assert(entries_bits(es, 1) =~= finite_bits(es[0].0) + finite_bits(es[0].1)) by {
        assert(entries_bits(es, 0) =~= Seq::<u64>::empty());
    }
    assert(text =~= seq![0x7Bu8] + (pair + seq![0x7Du8]));
    lemma_stands_concat(s, pos, seq![0x7Bu8], pair + seq![0x7Du8]);
    lemma_next_byte(s, pos + 1, pair, seq![0x7Du8]);
    lemma_parse_pair(s, pos + 1, es[0], indent, prefix, texts, k);
    lemma_item_start_here(s, pos + 1, 0x7D);
    let end = pos + 1 + pair.len();
    lemma_item_start_close(s, end, false, 0x7D);
    lemma_written_len(Seq::empty(), es, texts, k, 1);
    assert(entries_bits(es, 0).len() == 0);
    let one = Seq::<(Literal, Literal)>::empty().push(
        (written(es[0].0, texts, k), written(es[0].1, texts, k2)),
    );
    assert(written_entries(es, texts, k, 1) =~= one);
    assert(parse_entries(s, end, false, one) == Ok::<
        (Seq<(Literal, Literal)>, int),
        (int, DecodeError),
    >((one, end + 1)));
}

/// A key, a colon and a value are read back.
proof fn lemma_parse_pair(
    s: Seq<u8>,
    p: int,
    e: (Tree, Tree),
    indent: nat,
    inner: Seq<u8>,
    texts: Seq<Seq<u8>>,
    k: int,
)
    requires
        stands_at(s, p, pair_text(e, indent, inner, texts, k)),
        delimited(s, p + pair_text(e, indent, inner, texts, k).len()),
        blank(inner),
        texts_fit(texts, k, (finite_bits(e.0).len() + finite_bits(e.1).len()) as int),
    ensures
        pair_read(s, p, e, indent, inner, texts, k),
    decreases e, 3nat, 0int,
{
    let km = k + finite_bits(e.0).len();
    let key = human(e.0, indent, inner, texts, k);
    let c = colon_text(indent);
    let value = human(e.1, indent, inner, texts, km);
    assert(pair_text(e, indent, inner, texts, k) =~= key + (c + value));
    lemma_next_byte(s, p, key, c + value);
    lemma_texts_fit_part(
        texts,
        k,
        (finite_bits(e.0).len() + finite_bits(e.1).len()) as int,
        k,
        finite_bits(e.0).len() as int,
    );
    lemma_texts_fit_part(
        texts,
        k,
        (finite_bits(e.0).len() + finite_bits(e.1).len()) as int,
        km,
        finite_bits(e.1).len() as int,
    );
    lemma_parse_human(s, p, e.0, indent, inner, texts, k);
    let q = p + key.len();
    lemma_stands_concat(s, q, c, value);
    lemma_parse_human(s, q + c.len(), e.1, indent, inner, texts, km);
    lemma_colon(s, q, indent);
}

/// The text of an entry: its key, a colon and its value.
pub open spec fn pair_text(
    e: (Tree, Tree),
    indent: nat,
    inner: Seq<u8>,
    texts: Seq<Seq<u8>>,
    k: int,
) -> Seq<u8> {
    human(e.0, indent, inner, texts, k) + colon_text(indent) + human(
        e.1,
        indent,
        inner,
        texts,
        k + finite_bits(e.0).len(),
    )
}

/// What `lemma_parse_pair` says: the key is read back, the colon after it, and the value
/// after that, up to the end of the text of the entry.
pub open spec fn pair_read(
    s: Seq<u8>,
    p: int,
    e: (Tree, Tree),
    indent: nat,
    inner: Seq<u8>,
    texts: Seq<Seq<u8>>,
    k: int,
) -> bool {
    let q = p + human(e.0, indent, inner, texts, k).len();
    let end = p + pair_text(e, indent, inner, texts, k).len();
    &&& begins(s, p)
    &&& p < q
    &&& q + 1 < end
    &&& end <= s.len()
    &&& parse(s, p) == Ok::<(Literal, int), (int, DecodeError)>((written(e.0, texts, k), q))
    &&& colon(s, q) == Ok::<((), int), (int, DecodeError)>(((), q + 1))
    &&& parse(s, q + 1) == Ok::<(Literal, int), (int, DecodeError)>(
        (written(e.1, texts, k + finite_bits(e.0).len()), end),
    )
}

proof fn lemma_parse_tail_items(
    s: Seq<u8>,
    pos: int,
    xs: Seq<Tree>,
    indent: nat,
    prefix: Seq<u8>,
    texts: Seq<Seq<u8>>,
    k: int,
    i: int,
)
    requires
        0 <= i <= xs.len(),
        xs.len() >= 2,
        stands_at(
            s,
            pos,
            tail_items(xs, indent, prefix, texts, k + items_bits(xs, i as nat).len(), i),
        ),
        blank(prefix),
        texts_fit(texts, k, items_bits(xs, xs.len()).len() as int),
    ensures
        parse_items(s, pos, written_items(xs, texts, k, i as nat)) == Ok::<
            (Seq<Literal>, int),
            (int, DecodeError),
        >(
            (
                written_items(xs, texts, k, xs.len()),
                pos + tail_items(
                    xs,
                    indent,
                    prefix,
                    texts,
                    k + items_bits(xs, i as nat).len(),
                    i,
                ).len(),
            ),
        ),
    decreases xs, 1nat, xs.len() - i,
{
    let ki = k + items_bits(xs, i as nat).len();
    let tail = tail_items(xs, indent, prefix, texts, ki, i);
    lemma_written_len(xs, Seq::empty(), texts, k, i as nat);
    if i < xs.len() {
        let l = lead(indent, prefix, i);
        let inner = item_prefix(indent, prefix);
        let item = human(xs[i], indent, inner, texts, ki);
        let k2 = ki + finite_bits(xs[i]).len();
        let rest = tail_items(xs, indent, prefix, texts, k2, i + 1);
        assert(tail =~= l + (item + rest));
        lemma_tail_first(xs, Seq::empty(), indent, prefix, texts, k2, i + 1);
        lemma_stands_concat(s, pos, l, item + rest);
        lemma_next_byte(s, pos + l.len(), item, rest);
        lemma_item_prefix_blank(indent, prefix);
        lemma_items_bits_grow(xs, (i + 1) as nat, xs.len());
        assert(items_bits(xs, (i + 1) as nat).len() == items_bits(xs, i as nat).len()
            + finite_bits(xs[i]).len());
        lemma_texts_fit_part(
            texts,
            k,
            items_bits(xs, xs.len()).len() as int,
            ki,
            finite_bits(xs[i]).len() as int,
        );
        lemma_parse_human(s, pos + l.len(), xs[i], indent, inner, texts, ki);
        lemma_item_start_lead(s, pos, indent, prefix, i, 0x5D);
        lemma_parse_tail_items(s, pos + l.len() + item.len(), xs, indent, prefix, texts, k, i + 1);
    } else {
        lemma_item_start_trail(s, pos, indent, prefix, 0x5D);
    }
}

/// One entry of a map is read: where the entry begins, its key, the colon and its value.
pub proof fn lemma_entries_step(
    s: Seq<u8>,
    pos: int,
    p: int,
    acc: Seq<(Literal, Literal)>,
    key: Literal,
    value: Literal,
    q: int,
    end: int,
)
    requires
        0 <= pos <= s.len(),
        item_start(s, pos, acc.len() == 0, 0x7D) == Ok::<(Option<int>, int), (int, DecodeError)>(
            (Some(p), p),
        ),
        parse(s, p) == Ok::<(Literal, int), (int, DecodeError)>((key, q)),
        p < q,
        colon(s, q) == Ok::<((), int), (int, DecodeError)>(((), q + 1)),
        parse(s, q + 1) == Ok::<(Literal, int), (int, DecodeError)>((value, end)),
        q + 1 < end <= s.len(),
    ensures
        parse_entries(s, pos, false, acc) == parse_entries(s, end, false, acc.push((key, value))),
{
}

#[verifier::rlimit(100)]
proof fn lemma_parse_tail_entries(
    s: Seq<u8>,
    pos: int,
    es: Seq<(Tree, Tree)>,
    indent: nat,
    prefix: Seq<u8>,
    texts: Seq<Seq<u8>>,
    k: int,
    i: int,
)
    requires
        0 <= i <= es.len(),
        es.len() >= 2,
        stands_at(
            s,
            pos,
            tail_entries(es, indent, prefix, texts, k + entries_bits(es, i as nat).len(), i),
        ),
        blank(prefix),
        texts_fit(texts, k, entries_bits(es, es.len()).len() as int),
    ensures
        parse_entries(s, pos, false, written_entries(es, texts, k, i as nat)) == Ok::<
            (Seq<(Literal, Literal)>, int),
            (int, DecodeError),
        >(
            (
                written_entries(es, texts, k, es.len()),
                pos + tail_entries(
                    es,
                    indent,
                    prefix,
                    texts,
                    k + entries_bits(es, i as nat).len(),
                    i,
                ).len(),
            ),
        ),
    decreases es, 1nat, es.len() - i,
{
    let ki = k + entries_bits(es, i as nat).len();
    let tail = tail_entries(es, indent, prefix, texts, ki, i);
    lemma_written_len(Seq::empty(), es, texts, k, i as nat);
    if i < es.len() {
        let l = lead(indent, prefix, i);
        let inner = item_prefix(indent, prefix);
        let k2 = ki + finite_bits(es[i].0).len() + finite_bits(es[i].1).len();
        let pair = pair_text(es[i], indent, inner, texts, ki);
        let rest = tail_entries(es, indent, prefix, texts, k2, i + 1);
        assert(tail =~= l + (pair + rest));
        lemma_tail_first(Seq::empty(), es, indent, prefix, texts, k2, i + 1);
        lemma_stands_concat(s, pos, l, pair + rest);
        lemma_next_byte(s, pos + l.len(), pair, rest);
        lemma_item_prefix_blank(indent, prefix);
        lemma_entries_bits_grow(es, (i + 1) as nat, es.len());
        assert(entries_bits(es, (i + 1) as nat).len() == entries_bits(es, i as nat).len()
            + finite_bits(es[i].0).len() + finite_bits(es[i].1).len());
        lemma_texts_fit_part(
            texts,
            k,
            entries_bits(es, es.len()).len() as int,
            ki,
            (finite_bits(es[i].0).len() + finite_bits(es[i].1).len()) as int,
        );
        lemma_parse_pair(s, pos + l.len(), es[i], indent, inner, texts, ki);
        lemma_item_start_lead(s, pos, indent, prefix, i, 0x7D);
        lemma_parse_tail_entries(s, pos + l.len() + pair.len(), es, indent, prefix, texts, k, i + 1);
        lemma_entries_step(
            s,
            pos,
            pos + l.len(),
            written_entries(es, texts, k, i as nat),
            written(es[i].0, texts, ki),
            written(es[i].1, texts, ki + finite_bits(es[i].0).len()),
            pos + l.len() + human(es[i].0, indent, inner, texts, ki).len(),
            pos + l.len() + pair.len(),
        );
    } else {
        lemma_item_start_trail(s, pos, indent, prefix, 0x7D);
    }
}

/// The table `bits` holds, from index `k` on, the given bits.
pub open spec fn bits_fit(bits: Seq<u64>, k: int, part: Seq<u64>) -> bool {
    0 <= k && k + part.len() <= bits.len() && forall|i: int|
        0 <= i < part.len() ==> bits[k + i] == #[trigger] part[i]
}

/// The table holds the bits of a part of the value where that part stands.
pub proof fn lemma_bits_fit_part(bits: Seq<u64>, k: int, a: Seq<u64>, b: Seq<u64>)
    requires
        bits_fit(bits, k, a + b),
    ensures
        bits_fit(bits, k, a),
        bits_fit(bits, k + a.len(), b),
{
    assert forall|i: int| 0 <= i < a.len() implies bits[k + i] == #[trigger] a[i] by {
        assert((a + b)[i] == a[i]);
    }
    assert forall|i: int| 0 <= i < b.len() implies bits[k + a.len() + i] == #[trigger] b[i] by {
        assert((a + b)[a.len() + i] == b[i]);
    }
}

/// What `lemma_written_value` says of a value as it was written: its decimal float
/// literals are the texts of its finite floats, and with their bits it is the value.
pub open spec fn stands_for(t: Tree, tx: Seq<Seq<u8>>, bits: Seq<u64>, k: int) -> bool {
    &&& crate::human::value::texts(written(t, tx, k)) == tx.subrange(
        k,
        k + finite_bits(t).len(),
    )
    &&& value_of(written(t, tx, k), bits, k) == t
}

/// Human round trip, for the value: a valid value as the encoder writes it has the texts
/// of its finite floats as its decimal float literals, and with the bits of those floats it
/// is the value.
pub proof fn lemma_written_value(t: Tree, tx: Seq<Seq<u8>>, bits: Seq<u64>, k: int)
    requires
        t.wf(),
        0 <= k,
        k + finite_bits(t).len() <= tx.len(),
        bits_fit(bits, k, finite_bits(t)),
    ensures
        stands_for(t, tx, bits, k),
    decreases t, 0nat, 0nat,
{
    match t {
        Tree::Float(b) => {
            assert(NAN_BITS % SIGN_BIT == 0x7FFF_FFFF_FFFF_FFFFu64);
            if finite(b) {
                assert(finite_bits(t)[0] == b);
                assert(tx.subrange(k, k + 1) =~= seq![tx[k]]);
            } else {
                assert(tx.subrange(k, k) =~= Seq::<Seq<u8>>::empty());
            }
            assert(written(t, tx, k) == Literal::Float(written_float(b, tx, k)));
            assert(stands_for(t, tx, bits, k));
        },
        Tree::Array(xs) => {
            assert(t.wf() == (forall|j: int| 0 <= j < xs.len() ==> (#[trigger] xs[j]).wf()));
            lemma_written_items(xs, tx, bits, k, xs.len());
            lemma_written_len(xs, Seq::empty(), tx, k, xs.len());
            assert(xs.take(xs.len() as int) =~= xs);
            assert(written(t, tx, k) == Literal::Array(written_items(xs, tx, k, xs.len())));
            assert(stands_for(t, tx, bits, k));
        },
        Tree::Mapping(es) => {
            assert(t.wf() == entries_wf(es));
            lemma_written_entries(es, tx, bits, k, es.len());
            lemma_written_len(Seq::empty(), es, tx, k, es.len());
            assert(es.take(es.len() as int) =~= es);
            assert(written(t, tx, k) == Literal::Mapping(written_entries(es, tx, k, es.len())));
            assert(stands_for(t, tx, bits, k));
        },
        Tree::Nil => {
            assert(tx.subrange(k, k) =~= Seq::<Seq<u8>>::empty());
            assert(stands_for(t, tx, bits, k));
        },
        Tree::Bool(b) => {
            assert(tx.subrange(k, k) =~= Seq::<Seq<u8>>::empty());
            assert(stands_for(t, tx, bits, k));
        },
        Tree::Int(n) => {
            assert(tx.subrange(k, k) =~= Seq::<Seq<u8>>::empty());
            assert(stands_for(t, tx, bits, k));
        },
    }
}

/// The first `n` of the items as written are the first `n` items of any more as written.
pub proof fn lemma_written_prefix(
    xs: Seq<Tree>,
    es: Seq<(Tree, Tree)>,
    tx: Seq<Seq<u8>>,
    k: int,
    n: nat,
    m: nat,
    j: int,
)
    requires
        0 <= j < n <= m,
    ensures
        m <= xs.len() ==> written_items(xs, tx, k, m)[j] == written_items(xs, tx, k, n)[j]
            && written_items(xs, tx, k, n)[j] == written(
            xs[j],
            tx,
            k + items_bits(xs, j as nat).len(),
        ),
        m <= es.len() ==> written_entries(es, tx, k, m)[j] == written_entries(es, tx, k, n)[j]
            && written_entries(es, tx, k, n)[j] == (
            written(es[j].0, tx, k + entries_bits(es, j as nat).len()),
            written(
                es[j].1,
                tx,
                k + entries_bits(es, j as nat).len() + finite_bits(es[j].0).len(),
            ),
        ),
    decreases m,
{
    lemma_written_len(xs, es, tx, k, n);
    lemma_written_len(xs, es, tx, k, m);
    lemma_written_len(xs, es, tx, k, (n - 1) as nat);
    if n < m {
        lemma_written_len(xs, es, tx, k, (m - 1) as nat);
        lemma_written_prefix(xs, es, tx, k, n, (m - 1) as nat, j);
    } else if j < n - 1 {
        lemma_written_prefix(xs, es, tx, k, (n - 1) as nat, (n - 1) as nat, j);
    }
}

proof fn lemma_written_items(xs: Seq<Tree>, tx: Seq<Seq<u8>>, bits: Seq<u64>, k: int, n: nat)
    requires
        n <= xs.len(),
        forall|j: int| 0 <= j < xs.len() ==> (#[trigger] xs[j]).wf(),
        0 <= k,
        k + items_bits(xs, xs.len()).len() <= tx.len(),
        bits_fit(bits, k, items_bits(xs, xs.len())),
    ensures
        items_texts(written_items(xs, tx, k, xs.len()), n) == tx.subrange(
            k,
            k + items_bits(xs, n).len(),
        ),
        items_of(written_items(xs, tx, k, xs.len()), bits, k, n) == xs.take(n as int),
    decreases xs, 1nat, n,
{
    let w = written_items(xs, tx, k, xs.len());
    lemma_written_len(xs, Seq::empty(), tx, k, xs.len());
    if n > 0 {
        let ki = k + items_bits(xs, (n - 1) as nat).len();
        lemma_written_items(xs, tx, bits, k, (n - 1) as nat);
        lemma_written_prefix(xs, Seq::empty(), tx, k, n, xs.len(), n - 1);
        lemma_items_bits_grow(xs, n, xs.len());
        lemma_bits_part_items(xs, bits, k, n);
        assert(xs[n - 1].wf());
        lemma_written_value(xs[n - 1], tx, bits, ki);
        assert(tx.subrange(k, ki) + tx.subrange(ki, ki + finite_bits(xs[n - 1]).len())
            =~= tx.subrange(k, k + items_bits(xs, n).len()));
        assert(xs.take((n - 1) as int).push(xs[n - 1]) =~= xs.take(n as int));
    } else {
        assert(tx.subrange(k, k) =~= Seq::<Seq<u8>>::empty());
        assert(xs.take(0) =~= Seq::<Tree>::empty());
    }
}

/// The table holds the bits of the item before the `n`th where that item stands.
proof fn lemma_bits_part_items(xs: Seq<Tree>, bits: Seq<u64>, k: int, n: nat)
    requires
        0 < n <= xs.len(),
        bits_fit(bits, k, items_bits(xs, xs.len())),
    ensures
        bits_fit(bits, k + items_bits(xs, (n - 1) as nat).len(), finite_bits(xs[n - 1])),
        bits_fit(bits, k, items_bits(xs, n)),
    decreases xs.len() - n,
{
    if n < xs.len() {
        lemma_bits_part_items(xs, bits, k, n + 1);
        lemma_bits_fit_part(bits, k, items_bits(xs, n), finite_bits(xs[n as int]));
    }
    lemma_bits_fit_part(bits, k, items_bits(xs, (n - 1) as nat), finite_bits(xs[n - 1]));
}

/// The table holds the bits of the entry before the `n`th where that entry stands.
proof fn lemma_bits_part_entries(es: Seq<(Tree, Tree)>, bits: Seq<u64>, k: int, n: nat)
    requires
        0 < n <= es.len(),
        bits_fit(bits, k, entries_bits(es, es.len())),
    ensures
        bits_fit(bits, k + entries_bits(es, (n - 1) as nat).len(), finite_bits(es[n - 1].0)),
        bits_fit(
            bits,
            k + entries_bits(es, (n - 1) as nat).len() + finite_bits(es[n - 1].0).len(),
            finite_bits(es[n - 1].1),
        ),
        bits_fit(bits, k, entries_bits(es, n)),
    decreases es.len() - n,
{
    if n < es.len() {
        lemma_bits_part_entries(es, bits, k, n + 1);
        assert(entries_bits(es, n + 1) =~= entries_bits(es, n) + (finite_bits(es[n as int].0)
            + finite_bits(es[n as int].1)));
        lemma_bits_fit_part(
            bits,
            k,
            entries_bits(es, n),
            finite_bits(es[n as int].0) + finite_bits(es[n as int].1),
        );
    }
    let before = entries_bits(es, (n - 1) as nat);
    assert(entries_bits(es, n) =~= before + (finite_bits(es[n - 1].0) + finite_bits(es[n - 1].1)));
    lemma_bits_fit_part(bits, k, before, finite_bits(es[n - 1].0) + finite_bits(es[n - 1].1));
    lemma_bits_fit_part(bits, k + before.len(), finite_bits(es[n - 1].0), finite_bits(es[n - 1].1));
}

proof fn lemma_written_entries(
    es: Seq<(Tree, Tree)>,
    tx: Seq<Seq<u8>>,
    bits: Seq<u64>,
    k: int,
    n: nat,
)
    requires
        n <= es.len(),
        entries_wf(es),
        0 <= k,
        k + entries_bits(es, es.len()).len() <= tx.len(),
        bits_fit(bits, k, entries_bits(es, es.len())),
    ensures
        entries_texts(written_entries(es, tx, k, es.len()), n) == tx.subrange(
            k,
            k + entries_bits(es, n).len(),
        ),
        entries_of(written_entries(es, tx, k, es.len()), bits, k, n) == es.take(n as int),
    decreases es, 1nat, n,
{
    let w = written_entries(es, tx, k, es.len());
    lemma_written_len(Seq::empty(), es, tx, k, es.len());
    if n > 0 {
        let ki = k + entries_bits(es, (n - 1) as nat).len();
        let km = ki + finite_bits(es[n - 1].0).len();
        lemma_written_entries(es, tx, bits, k, (n - 1) as nat);
        lemma_written_prefix(Seq::empty(), es, tx, k, n, es.len(), n - 1);
        lemma_entries_bits_grow(es, n, es.len());
        lemma_bits_part_entries(es, bits, k, n);
        assert(es[n - 1].0.wf() && es[n - 1].1.wf());
        lemma_written_value(es[n - 1].0, tx, bits, ki);
        lemma_written_value(es[n - 1].1, tx, bits, km);
        assert(tx.subrange(k, ki) + tx.subrange(ki, km) + tx.subrange(
            km,
            km + finite_bits(es[n - 1].1).len(),
        ) =~= tx.subrange(k, k + entries_bits(es, n).len()));
        let acc = es.take((n - 1) as int);
        assert forall|j: int| 0 <= j < acc.len() implies crate::order::order(
            (#[trigger] acc[j]).0,
            es[n - 1].0,
        ) == Order::Less by {
            assert(key_below(es, j, n - 1));
        }
        lemma_insert_above(acc, es[n - 1].0, es[n - 1].1);
        assert(acc.push(es[n - 1]) =~= es.take(n as int));
    } else {
        assert(tx.subrange(k, k) =~= Seq::<Seq<u8>>::empty());
        assert(es.take(0) =~= Seq::<(Tree, Tree)>::empty());
    }
}

/// A run of decimal digits and underscores in a text that stands before a delimiter ends
/// in the input where it ends in the text.
proof fn lemma_run_end_within(s: Seq<u8>, pos: int, t: Seq<u8>, p: int)
    requires
        stands_at(s, pos, t),
        delimited(s, pos + t.len()),
        0 <= p <= t.len(),
    ensures
        run_end(s, pos + p, 10) == pos + run_end(t, p, 10),
    decreases t.len() - p,
{
    if p < t.len() {
        assert(s.subrange(pos, pos + t.len())[p] == t[p]);
        if t[p] == 0x5F || is_base_digit(t[p], 10) {
            lemma_run_end_within(s, pos, t, p + 1);
        }
    }
}

/// The digits of a part of a text are its digits where the text stands in an input.
proof fn lemma_stripped_within(s: Seq<u8>, pos: int, t: Seq<u8>, n: int)
    requires
        stands_at(s, pos, t),
        0 <= n <= t.len(),
    ensures
        stripped(s, pos, pos + n) == stripped(t, 0, n),
    decreases n,
{
    if n > 0 {
        lemma_stripped_within(s, pos, t, n - 1);
        assert(s.subrange(pos, pos + t.len())[n - 1] == t[n - 1]);
    }
}

/// A decimal float literal is read as the float with its text wherever it stands before a
/// delimiter.
pub proof fn lemma_float_literal_fits(t: Seq<u8>)
    requires
        float_literal(t),
    ensures
        is_float_text(t),
{
    assert forall|s: Seq<u8>, pos: int|
        stands_at(s, pos, t) && delimited(s, pos + t.len()) implies #[trigger] lex_number(s, pos)
        == Ok::<(NumberText, int), (int, DecodeError)>(
        (NumberText::F(FloatText::Decimal(t)), pos + t.len()),
    ) && begins(s, pos) by {
        lemma_float_literal_read(t, s, pos);
    }
}

/// The byte of a text at an index is the byte of the input where the text stands; and
/// after the text no byte of a number stands.
proof fn lemma_at_within(s: Seq<u8>, pos: int, t: Seq<u8>, i: int)
    requires
        stands_at(s, pos, t),
        delimited(s, pos + t.len()),
        0 <= i <= t.len(),
    ensures
        i < t.len() ==> at(s, pos + i) == at(t, i),
        i == t.len() ==> at(t, i).is_none() && at(s, pos + i) != Some(0x2Eu8) && at(s, pos + i)
            != Some(0x45u8) && at(s, pos + i) != Some(0x65u8) && at(s, pos + i) != Some(0x2Du8)
            && at(s, pos + i) != Some(0x2Bu8) && at(s, pos + i) != Some(0x78u8) && at(s, pos + i)
            != Some(0x58u8) && at(s, pos + i) != Some(0x62u8) && at(s, pos + i) != Some(0x42u8),
{
    if i < t.len() {
        assert(s.subrange(pos, pos + t.len())[i] == t[i]);
    }
}

proof fn lemma_float_literal_read(t: Seq<u8>, s: Seq<u8>, pos: int)
    requires
        float_literal(t),
        stands_at(s, pos, t),
        delimited(s, pos + t.len()),
    ensures
        lex_number(s, pos) == Ok::<(NumberText, int), (int, DecodeError)>(
            (NumberText::F(FloatText::Decimal(t)), pos + t.len()),
        ),
        begins(s, pos),
{
    let n = t.len() as int;
    let negative = at(t, 0) == Some(0x2Du8);
    let signed = negative || at(t, 0) == Some(0x2Bu8);
    let p: int = if signed {
        1
    } else {
        0
    };
    // The literal itself: a sign, digits, a point, digits, perhaps an exponent.
    assert(at(t, p).is_some());
    assert(spec_is_digit(t[p]));
    let point = run_end(t, p, 10);
    crate::human::lex::lemma_run_end(t, p, 10);
    assert(lex_float(t, 0) == lex_fraction(t, 0, point));
    assert(0 <= point < n && t[point] == 0x2E);
    assert(at(t, point + 1).is_some() && spec_is_digit(t[point + 1]));
    let e2 = run_end(t, point + 1, 10);
    crate::human::lex::lemma_run_end(t, point + 1, 10);
    // The same in the input.
    lemma_at_within(s, pos, t, 0);
    lemma_at_within(s, pos, t, 1);
    lemma_at_within(s, pos, t, p);
    lemma_run_end_within(s, pos, t, p);
    lemma_at_within(s, pos, t, point);
    lemma_at_within(s, pos, t, point + 1);
    lemma_run_end_within(s, pos, t, point + 1);
    lemma_at_within(s, pos, t, e2);
    assert(!has_prefix(s, pos, 0x78));
    assert(!has_prefix(s, pos, 0x62));
    if at(t, e2) == Some(0x45u8) || at(t, e2) == Some(0x65u8) {
        lemma_at_within(s, pos, t, e2 + 1);
        let x = if at(t, e2 + 1) == Some(0x2Du8) || at(t, e2 + 1) == Some(0x2Bu8) {
            e2 + 2
        } else {
            e2 + 1
        };
        assert(at(t, x).is_some());
        lemma_at_within(s, pos, t, x);
        let e3 = run_end(t, x, 10);
        crate::human::lex::lemma_run_end(t, x, 10);
        lemma_run_end_within(s, pos, t, x);
        assert(e3 == n);
        lemma_stripped_within(s, pos, t, e3);
        assert(lex_fraction(s, pos, pos + point) == Ok::<(FloatText, int), (int, DecodeError)>(
            (FloatText::Decimal(t), pos + n),
        ));
    } else {
        assert(e2 == n);
        lemma_stripped_within(s, pos, t, e2);
        assert(lex_fraction(s, pos, pos + point) == Ok::<(FloatText, int), (int, DecodeError)>(
            (FloatText::Decimal(t), pos + n),
        ));
    }
}

/// What it is for a text to be read back as a value: the decoder reads the text up to its
/// end; what it reads has the texts of the table as its decimal float literals, in their
/// order; and where those are taken for the finite floats of the value, it is the value.
pub open spec fn read_back(text: Seq<u8>, t: Tree, texts: Seq<Seq<u8>>) -> bool {
    let read = parse(text, 0);
    &&& read.is_ok()
    &&& (read->Ok_0).1 == text.len()
    &&& crate::human::value::texts((read->Ok_0).0) == texts
    &&& value_of((read->Ok_0).0, finite_bits(t), 0) == t
}

/// Human round trip: for every valid value, every indentation and every table of decimal
/// float literals, one for each finite float of the value, the decoder reads the text that
/// the encoder writes up to its end; what it reads has the texts of the table as its decimal
/// float literals, in their order; and where those are taken for the floats that they were
/// written for, it is the value.
pub proof fn law_human_round_trip(v: Value, indent: nat, texts: Seq<Seq<u8>>)
    requires
        v.wf(),
        texts_accepted(v@, texts),
    ensures
        read_back(human(v@, indent, Seq::empty(), texts, 0), v@, texts),
{
    let text = human(v@, indent, Seq::empty(), texts, 0);
    assert(text.subrange(0, text.len() as int) =~= text);
    assert(blank(Seq::<u8>::empty()));
    assert forall|i: int| 0 <= i < texts.len() implies is_float_text(#[trigger] texts[i]) by {
        lemma_float_literal_fits(texts[i]);
    }
    lemma_parse_human(text, 0, v@, indent, Seq::empty(), texts, 0);
    lemma_written_value(v@, texts, finite_bits(v@), 0);
    assert(texts.subrange(0, texts.len() as int) =~= texts);
}

} // verus!

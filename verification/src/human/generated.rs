//! The human-readable decoder reads the texts of test values as their values.
use crate::compact::laws::{lemma_stands_concat, stands_at};
use crate::entries::insert;
use crate::human::de::{
    begins_number, byte_literals, checked, colon, item_start, parse, parse_entries, parse_items,
    DecodeError, Literal,
};
use crate::human::test_value as tv;
use crate::human::lex::{
    at, comment_end, has_prefix, has_word, is_base_digit, lex_decimal, lex_digits, lex_int,
    lex_number, run_end, run_value, skip_spaces, stripped, NumberText,
};
use crate::parser_helper::spec_is_ws;
use crate::test_value::{
    capitalised, spaces_bytes, underscored, underscores_at, upper, Base, Bool, Int, Nil, Space,
    Space_, Spaces, TestValue,
};
use crate::text::{digit_char, digit_value, digits, digits_value, lemma_digits};
use vstd::prelude::*;
use vstd::utf8::{
    encode_utf8, encode_utf8_valid_utf8, pop_first_scalar, valid_first_scalar, valid_utf8,
    valid_utf8_concat,
};

verus! {

/// Whether a number may end before the offset: the input ends there, or whitespace, a
/// comment, a comma, a colon or a closing bracket or brace stands there.
pub open spec fn closed_off(s: Seq<u8>, p: int) -> bool {
    match at(s, p) {
        None => true,
        Some(b) => spec_is_ws(b) || b == 0x23 || b == 0x2C || b == 0x3A || b == 0x5D || b == 0x7D,
    }
}

/// Whether all bytes are digits of the base.
pub open spec fn all_digits(ds: Seq<u8>, base: nat) -> bool {
    forall|i: int| 0 <= i < ds.len() ==> is_base_digit(#[trigger] ds[i], base)
}

/// The base in which the human-readable form of an int is written: ten for a negative int.
pub open spec fn radix(n: i64, base: Base) -> nat {
    if n < 0 {
        10
    } else {
        match base {
            Base::Binary => 2,
            Base::Hex(_) => 16,
            Base::Decimal => 10,
        }
    }
}

/// The number that an int is away from zero.
pub open spec fn distance(n: i64) -> nat {
    if n < 0 {
        (-n) as nat
    } else {
        n as nat
    }
}

/// A run of digits stands for the number of its digits without the underscores.
proof fn lemma_run_value_stripped(s: Seq<u8>, from: int, to: int, base: nat)
    requires
        0 <= from,
        to <= s.len(),
    ensures
        run_value(s, from, to, base) == digits_value(stripped(s, from, to), base),
    decreases to - from,
{
    if to > from {
        lemma_run_value_stripped(s, from, to - 1, base);
        if s[to - 1] != 0x5F {
            let v = stripped(s, from, to - 1);
            assert(v.push(s[to - 1]).drop_last() =~= v);
        }
    }
}

/// Underscores at the end of a run do not change its digits.
proof fn lemma_underscores_stripped(s: Seq<u8>, from: int, p: int, k: nat)
    requires
        0 <= from <= p,
        p + k <= s.len(),
        forall|j: int| p <= j < p + k ==> s[j] == 0x5F,
    ensures
        stripped(s, from, p + k) == stripped(s, from, p),
    decreases k,
{
    if k > 0 {
        lemma_underscores_stripped(s, from, p, (k - 1) as nat);
    }
}

/// Where digits with underscores after them stand, the digits of the run up to their end
/// are those of the run up to their start and these digits; and all their bytes are digits
/// or underscores.
proof fn lemma_run_text(
    s: Seq<u8>,
    from: int,
    p: int,
    ds: Seq<u8>,
    us: Map<usize, u8>,
    i: int,
    base: nat,
)
    requires
        0 <= from <= p,
        0 <= i <= ds.len(),
        all_digits(ds, base),
        stands_at(s, p, underscored(ds, us, i)),
    ensures
        stripped(s, from, p + underscored(ds, us, i).len()) == stripped(s, from, p) + ds.subrange(
            i,
            ds.len() as int,
        ),
        forall|j: int|
            p <= j < p + underscored(ds, us, i).len() ==> s[j] == 0x5F || is_base_digit(
                #[trigger] s[j],
                base,
            ),
        i < ds.len() ==> underscored(ds, us, i).len() >= 1 && s[p] == ds[i],
    decreases ds.len() - i,
{
    if i < ds.len() {
        let k: nat = underscores_at(us, i);
        let lines = Seq::new(k, |j: int| 0x5fu8);
        let tail = underscored(ds, us, i + 1);
        assert(underscored(ds, us, i) == seq![ds[i]] + lines + tail);
        lemma_stands_concat(s, p, seq![ds[i]] + lines, tail);
        lemma_stands_concat(s, p, seq![ds[i]], lines);
        assert(s.subrange(p, p + 1)[0] == ds[i]);
        assert(s[p] == ds[i]);
        assert(is_base_digit(ds[i], base));
        assert forall|j: int| p + 1 <= j < p + 1 + k implies s[j] == 0x5F by {
            assert(s.subrange(p + 1, p + 1 + k)[j - p - 1] == lines[j - p - 1]);
        }
        assert(stripped(s, from, p + 1) == stripped(s, from, p).push(ds[i]));
        lemma_underscores_stripped(s, from, p + 1, k);
        lemma_run_text(s, from, p + 1 + k, ds, us, i + 1, base);
        assert(stripped(s, from, p).push(ds[i]) + ds.subrange(i + 1, ds.len() as int)
            =~= stripped(s, from, p) + ds.subrange(i, ds.len() as int));
    } else {
        assert(ds.subrange(i, ds.len() as int) =~= Seq::<u8>::empty());
        assert(stripped(s, from, p) + Seq::<u8>::empty() =~= stripped(s, from, p));
    }
}

/// A run goes on over digits and underscores.
proof fn lemma_run_through(s: Seq<u8>, p: int, e: int, base: nat)
    requires
        0 <= p <= e <= s.len(),
        forall|j: int| p <= j < e ==> s[j] == 0x5F || is_base_digit(#[trigger] s[j], base),
    ensures
        run_end(s, p, base) == run_end(s, e, base),
    decreases e - p,
{
    if p < e {
        assert(s[p] == 0x5F || is_base_digit(s[p], base));
        lemma_run_through(s, p + 1, e, base);
    }
}

/// Zeros before digits do not change the number of the digits.
proof fn lemma_leading_zeros(k: nat, ds: Seq<u8>, base: nat)
    ensures
        digits_value(Seq::new(k, |j: int| 0x30u8) + ds, base) == digits_value(ds, base),
    decreases ds.len(), k,
{
    let zeros = Seq::new(k, |j: int| 0x30u8);
    let all = zeros + ds;
    if ds.len() > 0 {
        lemma_leading_zeros(k, ds.drop_last(), base);
        assert(all.drop_last() =~= zeros + ds.drop_last());
        assert(all.last() == ds.last());
        assert(digits_value(all, base) == digits_value(all.drop_last(), base) * base
            + digit_value(all.last()));
        assert(digits_value(ds, base) == digits_value(ds.drop_last(), base) * base + digit_value(
            ds.last(),
        ));
    } else if k > 0 {
        let fewer = Seq::new((k - 1) as nat, |j: int| 0x30u8);
        lemma_leading_zeros((k - 1) as nat, ds, base);
        assert(all.drop_last() =~= fewer + ds);
        assert(all.last() == 0x30u8);
        assert(digits_value(all, base) == digits_value(all.drop_last(), base) * base
            + digit_value(all.last()));
        assert(digits_value(ds, base) == 0);
    } else {
        assert(all =~= ds);
    }
}

/// Digits that stand for the same numbers, place by place, stand for the same number.
proof fn lemma_same_digits(a: Seq<u8>, b: Seq<u8>, base: nat)
    requires
        a.len() == b.len(),
        forall|i: int| 0 <= i < a.len() ==> digit_value(#[trigger] a[i]) == digit_value(b[i]),
    ensures
        digits_value(a, base) == digits_value(b, base),
    decreases a.len(),
{
    if a.len() > 0 {
        lemma_same_digits(a.drop_last(), b.drop_last(), base);
        assert(digit_value(a[a.len() - 1]) == digit_value(b[a.len() - 1]));
    }
}

/// The digits of the human-readable form of an int are digits of its base and stand for
/// the distance of the int from zero.
proof fn lemma_body(n: i64, base: Base, leading_zeros: u8)
    ensures
        Int::body(n, base, leading_zeros).len() >= 1,
        all_digits(Int::body(n, base, leading_zeros), radix(n, base)),
        digits_value(Int::body(n, base, leading_zeros), radix(n, base)) == distance(n),
{
    let b = radix(n, base);
    let m = distance(n);
    let zeros = Seq::new(leading_zeros as nat, |j: int| 0x30u8);
    let plain = zeros + digits(m, b);
    lemma_digits(m, b);
    lemma_leading_zeros(leading_zeros as nat, digits(m, b), b);
    assert forall|i: int| 0 <= i < plain.len() implies is_base_digit(#[trigger] plain[i], b) by {
        if i >= zeros.len() {
            let d = digits(m, b)[i - zeros.len()];
            assert(plain[i] == d);
            assert(digit_value(d) < b && digit_char(digit_value(d)) == d);
        }
    }
    if n >= 0 && base is Hex {
        let places = base->Hex_0;
        let ds = capitalised(plain, places@);
        assert(Int::body(n, base, leading_zeros) == ds);
        assert forall|i: int| 0 <= i < ds.len() implies is_base_digit(#[trigger] ds[i], 16)
            && digit_value(ds[i]) == digit_value(plain[i]) by {
            assert(is_base_digit(plain[i], 16));
            assert(ds[i] == plain[i] || ds[i] == upper(plain[i]));
        }
        lemma_same_digits(ds, plain, 16);
    } else {
        assert(Int::body(n, base, leading_zeros) == plain);
    }
}

/// What stands where a run of digits with underscores stands before the end of a number:
/// the run ends there, and it stands for the number of the digits.
proof fn lemma_run_read(s: Seq<u8>, p: int, ds: Seq<u8>, us: Map<usize, u8>, base: nat)
    requires
        0 <= p,
        ds.len() >= 1,
        all_digits(ds, base),
        stands_at(s, p, underscored(ds, us, 0)),
        closed_off(s, p + underscored(ds, us, 0).len()),
    ensures
        underscored(ds, us, 0).len() >= 1,
        s[p] == ds[0],
        run_end(s, p, base) == p + underscored(ds, us, 0).len(),
        run_value(s, p, p + underscored(ds, us, 0).len(), base) == digits_value(ds, base),
        forall|j: int|
            p <= j < p + underscored(ds, us, 0).len() ==> s[j] == 0x5F || is_base_digit(
                #[trigger] s[j],
                base,
            ),
{
    let e = p + underscored(ds, us, 0).len();
    lemma_run_text(s, p, p, ds, us, 0, base);
    assert(ds.subrange(0, ds.len() as int) =~= ds);
    assert(stripped(s, p, p) =~= Seq::<u8>::empty());
    assert(Seq::<u8>::empty() + ds =~= ds);
    lemma_run_value_stripped(s, p, e, base);
    lemma_run_through(s, p, e, base);
}

/// The human-readable decoder reads the text of an int, in any of the forms that the text
/// may have, as the int: wherever the text stands before the end of a number.
pub proof fn law_int_text_is_read(v: Int, s: Seq<u8>, pos: int)
    requires
        v is Human,
        stands_at(s, pos, v.bytes()),
        closed_off(s, pos + v.bytes().len()),
    ensures
        lex_number(s, pos) == Ok::<(NumberText, int), (int, DecodeError)>(
            (NumberText::I(v.value()), pos + v.bytes().len()),
        ),
{
    let n = v->Human_n;
    let base = v->Human_base;
    let us = v->Human_underscores@;
    let ds = Int::body(n, base, v->Human_leading_zeros);
    let sign = Int::sign(n, v->Human_explicit_sign, base);
    let prefix = Int::prefix(n, base);
    let run = underscored(ds, us, 0);
    let b = radix(n, base);
    let end = pos + v.bytes().len();
    lemma_body(n, base, v->Human_leading_zeros);
    assert(v.bytes() == sign + prefix + run);
    lemma_stands_concat(s, pos, sign + prefix, run);
    lemma_stands_concat(s, pos, sign, prefix);
    let p = pos + sign.len() + prefix.len();
    lemma_run_read(s, p, ds, us, b);
    assert(is_base_digit(ds[0], b));
    if sign.len() == 1 {
        assert(prefix.len() == 0);
        assert(s.subrange(pos, pos + 1)[0] == sign[0]);
        assert(lex_int(s, pos) == lex_decimal(s, pos + 1, n < 0, true));
        assert(at(s, run_end(s, pos + 1, 10)) != Some(0x2Eu8));
    } else if prefix.len() == 2 {
        assert(s.subrange(pos, pos + 2)[0] == prefix[0]);
        assert(s.subrange(pos, pos + 2)[1] == prefix[1]);
        if base is Hex {
            assert(has_prefix(s, pos, 0x78));
            assert(lex_int(s, pos) == lex_digits(s, pos + 2, 16));
        } else {
            assert(!has_prefix(s, pos, 0x78));
            assert(has_prefix(s, pos, 0x62));
            assert(lex_int(s, pos) == lex_digits(s, pos + 2, 2));
        }
    } else {
        assert(p == pos);
        if run.len() >= 2 {
            assert(s[pos + 1] == 0x5F || is_base_digit(s[pos + 1], 10));
        }
        assert(!has_prefix(s, pos, 0x78));
        assert(!has_prefix(s, pos, 0x62));
        assert(lex_int(s, pos) == lex_decimal(s, pos, false, false));
        assert(at(s, run_end(s, pos, 10)) != Some(0x2Eu8));
    }
}

/// Whether no comment among the pieces of whitespace holds a newline.
pub open spec fn spaces_valid(pieces: Seq<Space>) -> bool {
    forall|i: int| 0 <= i < pieces.len() ==> (#[trigger] pieces[i]).0.valid()
}

/// Whether a value begins at the offset: a byte stands there that is no whitespace and does
/// not begin a comment.
pub open spec fn value_at(s: Seq<u8>, p: int) -> bool {
    match at(s, p) {
        None => false,
        Some(b) => !spec_is_ws(b) && b != 0x23,
    }
}

/// A `#` alone and a newline alone are UTF-8.
proof fn lemma_ascii_utf8(b: u8)
    requires
        b == 0x23 || b == 0x0a,
    ensures
        valid_utf8(seq![b]),
{
    let one = seq![b];
    assert(b & 0x7F == b) by (bit_vector)
        requires
            b == 0x23 || b == 0x0a,
    ;
    assert(valid_first_scalar(one));
    assert(pop_first_scalar(one) =~= Seq::<u8>::empty());
    assert(valid_utf8(pop_first_scalar(one)));
}

/// A comment without a newline in its text ends after the newline that follows the text.
proof fn lemma_comment_ends(s: Seq<u8>, p: int, e: int)
    requires
        0 <= p <= e < s.len(),
        forall|j: int| p <= j < e ==> s[j] != 0x0a,
        s[e] == 0x0a,
    ensures
        comment_end(s, p) == e + 1,
    decreases e - p,
{
    if p < e {
        lemma_comment_ends(s, p + 1, e);
    }
}

/// Whitespace is skipped piece by piece.
proof fn lemma_piece_skipped(s: Seq<u8>, pos: int, piece: Space_)
    requires
        piece.valid(),
        stands_at(s, pos, piece.bytes()),
    ensures
        skip_spaces(s, pos) == skip_spaces(s, pos + piece.bytes().len()),
{
    let b = piece.bytes();
    assert(s.subrange(pos, pos + b.len())[0] == b[0]);
    if piece is Comment {
        let text = encode_utf8(piece->Comment_0@);
        let end = pos + b.len();
        assert(b == seq![0x23u8] + text + seq![0x0au8]);
        assert forall|j: int| pos + 1 <= j < end - 1 implies s[j] != 0x0a by {
            assert(s.subrange(pos, end)[j - pos] == b[j - pos]);
            assert(b[j - pos] == text[j - pos - 1]);
            if text[j - pos - 1] == 0x0a {
                assert(text.contains(0x0au8));
            }
        }
        assert(s.subrange(pos, end)[b.len() - 1] == b[b.len() - 1]);
        assert(s[end - 1] == 0x0a);
        lemma_comment_ends(s, pos + 1, end - 1);
        lemma_ascii_utf8(0x23);
        lemma_ascii_utf8(0x0a);
        encode_utf8_valid_utf8(piece->Comment_0@);
        valid_utf8_concat(seq![0x23u8], text);
        valid_utf8_concat(seq![0x23u8] + text, seq![0x0au8]);
        assert(valid_utf8(s.subrange(pos, end)));
    }
}

/// A run of whitespace is skipped.
proof fn lemma_spaces_skipped(s: Seq<u8>, pos: int, pieces: Seq<Space>, i: int)
    requires
        0 <= i <= pieces.len(),
        spaces_valid(pieces),
        stands_at(s, pos, spaces_bytes(pieces, i)),
    ensures
        skip_spaces(s, pos) == skip_spaces(s, pos + spaces_bytes(pieces, i).len()),
    decreases pieces.len() - i,
{
    if i < pieces.len() {
        let b = pieces[i].0.bytes();
        lemma_stands_concat(s, pos, b, spaces_bytes(pieces, i + 1));
        lemma_piece_skipped(s, pos, pieces[i].0);
        lemma_spaces_skipped(s, pos + b.len(), pieces, i + 1);
    }
}

/// Where whitespace without a newline in a comment stands before a value, it is skipped up
/// to the value.
pub proof fn lemma_whitespace_skipped(s: Seq<u8>, pos: int, w: Spaces)
    requires
        spaces_valid(w.0@),
        stands_at(s, pos, w.bytes()),
        value_at(s, pos + w.bytes().len()),
    ensures
        skip_spaces(s, pos) == Ok::<((), int), (int, DecodeError)>(((), pos + w.bytes().len())),
{
    lemma_spaces_skipped(s, pos, w.0@, 0);
}

/// The whitespace before a test value.
pub open spec fn whitespace(t: TestValue) -> Spaces {
    match t {
        TestValue::Nil(w, _) => w,
        TestValue::Bool(w, _) => w,
        TestValue::Int(w, _) => w,
    }
}

/// The value as the human-readable decoder hands it out.
pub open spec fn literal(t: TestValue) -> Literal {
    match t {
        TestValue::Nil(_, _) => Literal::Nil,
        TestValue::Bool(_, v) => Literal::Bool(v.value()),
        TestValue::Int(_, v) => Literal::Int(v.value()),
    }
}

/// The human-readable decoder accepts every encoding that is marked human-readable and
/// whose comments hold no newline, and gives the value: wherever the encoding stands
/// before the end of a value.
#[verifier::rlimit(30)]
pub proof fn law_marked_human_accepted(t: TestValue, s: Seq<u8>, pos: int)
    requires
        t.is_human(),
        spaces_valid(whitespace(t).0@),
        stands_at(s, pos, t.bytes()),
        closed_off(s, pos + t.bytes().len()),
    ensures
        parse(s, pos) == Ok::<(Literal, int), (int, DecodeError)>(
            (literal(t), pos + t.bytes().len()),
        ),
{
    let w = whitespace(t);
    let p = pos + w.bytes().len();
    match t {
        TestValue::Nil(_, v) => {
            let b = v.bytes();
            lemma_stands_concat(s, pos, w.bytes(), b);
            assert(s.subrange(p, p + 3)[0] == b[0]);
            assert(s.subrange(p, p + 3)[1] == b[1]);
            assert(s.subrange(p, p + 3)[2] == b[2]);
            lemma_whitespace_skipped(s, pos, w);
            assert(has_word(s, p, 0x6E, 0x69, 0x6C));
        },
        TestValue::Bool(_, v) => {
            let b = v.bytes();
            lemma_stands_concat(s, pos, w.bytes(), b);
            assert(s.subrange(p, p + b.len())[0] == b[0]);
            assert(s.subrange(p, p + b.len())[1] == b[1]);
            assert(s.subrange(p, p + b.len())[2] == b[2]);
            assert(s.subrange(p, p + b.len())[3] == b[3]);
            if !v.value() {
                assert(s.subrange(p, p + b.len())[4] == b[4]);
            }
            lemma_whitespace_skipped(s, pos, w);
        },
        TestValue::Int(_, v) => {
            let b = v.bytes();
            lemma_stands_concat(s, pos, w.bytes(), b);
            law_int_text_is_read(v, s, p);
            lemma_int_begins(v, s, p);
            lemma_whitespace_skipped(s, pos, w);
        },
    }
}

/// The text of an int begins as a number does.
proof fn lemma_int_begins(v: Int, s: Seq<u8>, pos: int)
    requires
        v is Human,
        stands_at(s, pos, v.bytes()),
    ensures
        v.bytes().len() >= 1,
        begins_number(s[pos]),
{
    let n = v->Human_n;
    let base = v->Human_base;
    let ds = Int::body(n, base, v->Human_leading_zeros);
    let sign = Int::sign(n, v->Human_explicit_sign, base);
    let prefix = Int::prefix(n, base);
    let run = underscored(ds, v->Human_underscores@, 0);
    lemma_body(n, base, v->Human_leading_zeros);
    assert(v.bytes() == sign + prefix + run);
    assert(run.len() >= 1 && run[0] == ds[0]);
    assert(is_base_digit(ds[0], radix(n, base)));
    assert(s.subrange(pos, pos + v.bytes().len())[0] == v.bytes()[0]);
}

/// The whitespace before a value with a chosen text.
pub open spec fn lead(t: tv::TestValue) -> Spaces {
    match t {
        tv::TestValue::Nil(w) => w,
        tv::TestValue::Bool(w, _) => w,
        tv::TestValue::Int(w, _) => w,
        tv::TestValue::Float(w, _) => w,
        tv::TestValue::ByteString(w, _) => w,
        tv::TestValue::Utf8String(w, _) => w,
        tv::TestValue::Array(w, _) => w,
        tv::TestValue::SetOf(w, _) => w,
        tv::TestValue::MapOf(w, _) => w,
    }
}

/// The chosen text of a value, without the whitespace before it.
pub open spec fn body_text(t: tv::TestValue) -> Seq<u8> {
    match t {
        tv::TestValue::Nil(_) => seq![0x6Eu8, 0x69, 0x6C],
        tv::TestValue::Bool(_, b) => if b {
            seq![0x74u8, 0x72, 0x75, 0x65]
        } else {
            seq![0x66u8, 0x61, 0x6C, 0x73, 0x65]
        },
        tv::TestValue::Int(_, v) => v.text@,
        tv::TestValue::Float(_, v) => v.text@,
        tv::TestValue::ByteString(_, v) => v.text@,
        tv::TestValue::Utf8String(_, v) => v.text@,
        tv::TestValue::Array(_, a) => seq![0x5Bu8] + tv::items_text(
            a.values@,
            a.trailing_comma,
            0,
        ) + seq![0x5Du8],
        tv::TestValue::SetOf(_, a) => seq![0x40u8, 0x7B] + tv::items_text(
            a.values@,
            a.trailing_comma,
            0,
        ) + seq![0x7Du8],
        tv::TestValue::MapOf(_, a) => seq![0x7Bu8] + tv::entries_text(
            a.values@,
            a.trailing_comma,
            0,
        ) + seq![0x7Du8],
    }
}

/// The chosen text of a value is its whitespace and then the value itself.
pub proof fn lemma_text_parts(t: tv::TestValue)
    ensures
        t.bytes() == lead(t).bytes() + body_text(t),
{
    assert(t.bytes() =~= lead(t).bytes() + body_text(t));
}

/// Whether a float literal may stand for the float with the given bits: `NaN` for a NaN,
/// `Inf` and `-Inf` for the infinities, a decimal literal for any float.
pub open spec fn float_fits(f: crate::human::lex::FloatText, bits: u64) -> bool {
    match f {
        crate::human::lex::FloatText::NaN => crate::value::is_nan(bits),
        crate::human::lex::FloatText::Inf => bits == crate::value::INF_BITS,
        crate::human::lex::FloatText::NegInf => bits == crate::value::NEG_INF_BITS,
        crate::human::lex::FloatText::Decimal(_) => true,
    }
}

/// Whether a literal is the one for a value with a chosen text: the same value part by
/// part, a float by any literal that stands for a float of its kind, a set and a map by
/// their entries as they are listed.
pub open spec fn shaped(l: Literal, t: tv::TestValue) -> bool
    decreases t,
{
    match t {
        tv::TestValue::Nil(_) => l == Literal::Nil,
        tv::TestValue::Bool(_, b) => l == Literal::Bool(b),
        tv::TestValue::Int(_, v) => l == Literal::Int(v.n),
        tv::TestValue::Float(_, v) => l is Float && float_fits(l->Float_0, v.bits),
        tv::TestValue::ByteString(_, v) => l == Literal::Array(byte_literals(v.bytes@)),
        tv::TestValue::Utf8String(_, v) => l == Literal::Array(
            byte_literals(encode_utf8(v.string@)),
        ),
        tv::TestValue::Array(_, a) => l is Array && l->Array_0.len() == a.values@.len()
            && forall|i: int|
            0 <= i < a.values@.len() ==> shaped(l->Array_0[i], (#[trigger] a.values@[i]).1),
        tv::TestValue::SetOf(_, a) => l is Mapping && l->Mapping_0.len() == a.values@.len()
            && forall|i: int|
            0 <= i < a.values@.len() ==> shaped(l->Mapping_0[i].0, (#[trigger] a.values@[i]).1)
                && l->Mapping_0[i].1 is Nil,
        tv::TestValue::MapOf(_, a) => l is Mapping && l->Mapping_0.len() == a.values@.len()
            && forall|i: int|
            0 <= i < a.values@.len() ==> shaped(l->Mapping_0[i].0, (#[trigger] a.values@[i]).1)
                && shaped(l->Mapping_0[i].1, a.values@[i].4),
    }
}

/// Whether an entry is the one for an item of a set: the literal for the item, bound to nil.
pub open spec fn key_shaped(e: (Literal, Literal), x: (Spaces, tv::TestValue, Spaces)) -> bool {
    shaped(e.0, x.1) && e.1 is Nil
}

/// Whether a value begins at the offset with a byte that no collection goes on with: no
/// whitespace, no `#`, no comma, no colon, no closing bracket or brace.
pub open spec fn opens(s: Seq<u8>, p: int) -> bool {
    match at(s, p) {
        None => false,
        Some(b) => !spec_is_ws(b) && b != 0x23 && b != 0x2C && b != 0x3A && b != 0x5D && b != 0x7D,
    }
}

/// The decoder reads at `p` a literal that is the one for `t`, and ends after the text of
/// `t`; and `t` begins there as a value does.
pub open spec fn reads(s: Seq<u8>, p: int, t: tv::TestValue) -> bool {
    match parse(s, p) {
        Ok((l, end)) => end == p + body_text(t).len() && shaped(l, t) && opens(s, p),
        Err(_) => false,
    }
}

/// Whether the text that was chosen for a number or a string is one for its value:
/// wherever it stands before the end of a value, the decoder reads it as that value.
pub open spec fn text_fits(t: tv::TestValue) -> bool {
    body_text(t).len() > 0 && forall|s: Seq<u8>, p: int|
        stands_at(s, p, body_text(t)) && closed_off(s, p + body_text(t).len()) ==> #[trigger] reads(s, p, t)
}

/// Whether no comment in the whitespace holds a newline, also where there is none.
pub open spec fn gap_valid(w: Option<Spaces>) -> bool {
    match w {
        None => true,
        Some(w) => spaces_valid(w.0@),
    }
}

/// Whether the choices make a text of the value: no comment holds a newline, and the text
/// of every number and string is one for its value.
pub open spec fn sound(t: tv::TestValue) -> bool
    decreases t,
{
    spaces_valid(lead(t).0@) && match t {
        tv::TestValue::Nil(_) => true,
        tv::TestValue::Bool(_, _) => true,
        tv::TestValue::Array(_, a) => gap_valid(a.trailing_comma) && forall|i: int|
            0 <= i < a.values@.len() ==> spaces_valid((#[trigger] a.values@[i]).0.0@) && sound(
                a.values@[i].1,
            ) && spaces_valid(a.values@[i].2.0@),
        tv::TestValue::SetOf(_, a) => gap_valid(a.trailing_comma) && forall|i: int|
            0 <= i < a.values@.len() ==> spaces_valid((#[trigger] a.values@[i]).0.0@) && sound(
                a.values@[i].1,
            ) && spaces_valid(a.values@[i].2.0@),
        tv::TestValue::MapOf(_, a) => gap_valid(a.trailing_comma) && forall|i: int|
            0 <= i < a.values@.len() ==> spaces_valid((#[trigger] a.values@[i]).0.0@) && sound(
                a.values@[i].1,
            ) && spaces_valid(a.values@[i].2.0@) && spaces_valid(a.values@[i].3.0@) && sound(
                a.values@[i].4,
            ) && spaces_valid(a.values@[i].5.0@),
        _ => text_fits(t),
    }
}

/// Whitespace begins with a byte of whitespace or with a `#`.
proof fn lemma_spaces_first(pieces: Seq<Space>, i: int)
    requires
        0 <= i <= pieces.len(),
        spaces_bytes(pieces, i).len() > 0,
    ensures
        spec_is_ws(spaces_bytes(pieces, i)[0]) || spaces_bytes(pieces, i)[0] == 0x23,
    decreases pieces.len() - i,
{
    if i < pieces.len() {
        let b = pieces[i].0.bytes();
        assert(b.len() >= 1);
        assert(spec_is_ws(b[0]) || b[0] == 0x23);
        assert(spaces_bytes(pieces, i)[0] == b[0]);
    }
}

/// Where `w + x` stands and `x` begins with a byte at which a value may end, a value may
/// end before it.
proof fn lemma_closed_by(s: Seq<u8>, p: int, w: Spaces, next: u8, tail: Seq<u8>)
    requires
        0 <= p,
        stands_at(s, p, w.bytes() + seq![next] + tail),
        next == 0x2C || next == 0x3A || next == 0x5D || next == 0x7D,
    ensures
        closed_off(s, p),
{
    let text = w.bytes() + seq![next] + tail;
    assert(s.subrange(p, p + text.len())[0] == text[0]);
    if w.bytes().len() > 0 {
        lemma_spaces_first(w.0@, 0);
        assert(text[0] == w.bytes()[0]);
    } else {
        assert(text[0] == next);
    }
}

/// Where whitespace and then a byte that is none stand, the whitespace is skipped up to
/// the byte.
proof fn lemma_skipped_to(s: Seq<u8>, p: int, w: Spaces, next: u8, tail: Seq<u8>)
    requires
        0 <= p,
        spaces_valid(w.0@),
        stands_at(s, p, w.bytes() + seq![next] + tail),
        !spec_is_ws(next) && next != 0x23,
    ensures
        skip_spaces(s, p) == Ok::<((), int), (int, DecodeError)>(((), p + w.bytes().len())),
        s[p + w.bytes().len()] == next,
        p + w.bytes().len() < s.len(),
        stands_at(s, p + w.bytes().len() + 1, tail),
{
    lemma_stands_concat(s, p, w.bytes() + seq![next], tail);
    lemma_stands_concat(s, p, w.bytes(), seq![next]);
    let q = p + w.bytes().len();
    assert(s.subrange(q, q + 1)[0] == next);
    lemma_spaces_skipped(s, p, w.0@, 0);
}

/// The byte that follows the whitespace after item `i` of `len`: a comma, but after the
/// last item the closing byte, unless a trailing comma is written.
pub open spec fn next_byte(len: nat, trailing: Option<Spaces>, i: int, close: u8) -> u8 {
    if i + 1 == len && trailing is None {
        close
    } else {
        0x2C
    }
}

/// The whitespace after a value, and what follows it up to the end of the collection.
pub open spec fn after_value(w: Spaces, next: u8, tail: Seq<u8>) -> Seq<u8> {
    w.bytes() + seq![next] + tail
}

/// What follows the comma after item `i`, or nothing after the closing byte: the later
/// items, or the whitespace after the trailing comma, and the closing byte.
pub open spec fn items_tail(
    xs: Seq<(Spaces, tv::TestValue, Spaces)>,
    trailing: Option<Spaces>,
    i: int,
    close: u8,
) -> Seq<u8> {
    if i + 1 == xs.len() {
        match trailing {
            None => Seq::empty(),
            Some(w) => w.bytes() + seq![close],
        }
    } else {
        tv::items_text(xs, trailing, i + 1) + seq![close]
    }
}

/// Joining the parts of an item and what follows it does not depend on the grouping.
proof fn lemma_join_item(
    x0: Seq<u8>,
    lv: Seq<u8>,
    bv: Seq<u8>,
    x2: Seq<u8>,
    sep: Seq<u8>,
    rest: Seq<u8>,
    close: Seq<u8>,
)
    ensures
        x0 + (lv + bv) + x2 + sep + rest + close == x0 + (lv + (bv + (x2 + (sep + rest + close)))),
{
    assert(x0 + (lv + bv) + x2 + sep + rest + close =~= x0 + (lv + (bv + (x2 + (sep + rest
        + close)))));
}

/// What follows item `i` up to the end of the collection, part by part.
proof fn lemma_item_closing_form(
    xs: Seq<(Spaces, tv::TestValue, Spaces)>,
    trailing: Option<Spaces>,
    i: int,
    close: u8,
)
    requires
        0 <= i < xs.len(),
    ensures
        xs[i].2.bytes() + (tv::separator(xs.len(), trailing, i) + tv::items_text(
            xs,
            trailing,
            i + 1,
        ) + seq![close]) == after_value(
            xs[i].2,
            next_byte(xs.len(), trailing, i, close),
            items_tail(xs, trailing, i, close),
        ),
{
    let sep = tv::separator(xs.len(), trailing, i);
    let rest = tv::items_text(xs, trailing, i + 1);
    if i + 1 == xs.len() {
        assert(rest =~= Seq::<u8>::empty());
    }
    assert(xs[i].2.bytes() + (sep + rest + seq![close]) =~= after_value(
        xs[i].2,
        next_byte(xs.len(), trailing, i, close),
        items_tail(xs, trailing, i, close),
    ));
}

/// The items from index `i` on, and the closing byte, part by part.
proof fn lemma_items_form(
    xs: Seq<(Spaces, tv::TestValue, Spaces)>,
    trailing: Option<Spaces>,
    i: int,
    close: u8,
)
    requires
        0 <= i < xs.len(),
    ensures
        tv::items_text(xs, trailing, i) + seq![close] == xs[i].0.bytes() + (lead(xs[i].1).bytes()
            + (body_text(xs[i].1) + after_value(
            xs[i].2,
            next_byte(xs.len(), trailing, i, close),
            items_tail(xs, trailing, i, close),
        ))),
{
    let x = xs[i];
    let sep = tv::separator(xs.len(), trailing, i);
    let rest = tv::items_text(xs, trailing, i + 1);
    lemma_text_parts(x.1);
    lemma_item_closing_form(xs, trailing, i, close);
    lemma_join_item(
        x.0.bytes(),
        lead(x.1).bytes(),
        body_text(x.1),
        x.2.bytes(),
        sep,
        rest,
        seq![close],
    );
    assert(tv::items_text(xs, trailing, i) == x.0.bytes() + x.1.bytes() + x.2.bytes() + sep
        + rest);
}

/// Whether the whitespace around every item is valid and every item is sound.
pub open spec fn items_sound(xs: Seq<(Spaces, tv::TestValue, Spaces)>) -> bool {
    forall|i: int|
        0 <= i < xs.len() ==> spaces_valid((#[trigger] xs[i]).0.0@) && sound(xs[i].1)
            && spaces_valid(xs[i].2.0@)
}

/// A byte at which a value begins is no whitespace, so nothing is skipped there.
proof fn lemma_skip_none(s: Seq<u8>, p: int)
    requires
        0 <= p < s.len(),
        !spec_is_ws(s[p]) && s[p] != 0x23,
    ensures
        skip_spaces(s, p) == Ok::<((), int), (int, DecodeError)>(((), p)),
{
}

/// Where whitespace, a sound value and what follows it stand, the whitespace is skipped
/// up to the value, and the value is read.
proof fn lemma_item_read(
    s: Seq<u8>,
    b0: int,
    w0: Spaces,
    v: tv::TestValue,
    w2: Spaces,
    next: u8,
    tail: Seq<u8>,
)
    requires
        0 <= b0,
        spaces_valid(w0.0@),
        sound(v),
        next == 0x2C || next == 0x3A || next == 0x5D || next == 0x7D,
        stands_at(
            s,
            b0,
            w0.bytes() + (lead(v).bytes() + (body_text(v) + after_value(w2, next, tail))),
        ),
    ensures
        skip_spaces(s, b0) == Ok::<((), int), (int, DecodeError)>(
            ((), b0 + w0.bytes().len() + lead(v).bytes().len()),
        ),
        reads(s, b0 + w0.bytes().len() + lead(v).bytes().len(), v),
        body_text(v).len() > 0,
        stands_at(
            s,
            b0 + w0.bytes().len() + lead(v).bytes().len() + body_text(v).len(),
            after_value(w2, next, tail),
        ),
    decreases v, 1nat, 0nat,
{
    let rest = after_value(w2, next, tail);
    lemma_stands_concat(s, b0, w0.bytes(), lead(v).bytes() + (body_text(v) + rest));
    let b1 = b0 + w0.bytes().len();
    lemma_stands_concat(s, b1, lead(v).bytes(), body_text(v) + rest);
    let p2 = b1 + lead(v).bytes().len();
    lemma_stands_concat(s, p2, body_text(v), rest);
    let q = p2 + body_text(v).len();
    lemma_closed_by(s, q, w2, next, tail);
    lemma_value_read(v, s, p2);
    lemma_spaces_skipped(s, b0, w0.0@, 0);
    lemma_spaces_skipped(s, b1, lead(v).0@, 0);
    lemma_skip_none(s, p2);
}

/// The decoder reads `nil`, `true` and `false`.
proof fn lemma_word_read(t: tv::TestValue, s: Seq<u8>, p: int)
    requires
        t is Nil || t is Bool,
        stands_at(s, p, body_text(t)),
    ensures
        reads(s, p, t),
        body_text(t).len() > 0,
{
    let b = body_text(t);
    assert(s.subrange(p, p + b.len())[0] == b[0]);
    assert(s.subrange(p, p + b.len())[1] == b[1]);
    assert(s.subrange(p, p + b.len())[2] == b[2]);
    lemma_skip_none(s, p);
    if t is Nil {
        assert(has_word(s, p, 0x6E, 0x69, 0x6C));
    } else {
        assert(s.subrange(p, p + b.len())[3] == b[3]);
        if !t->Bool_1 {
            assert(s.subrange(p, p + b.len())[4] == b[4]);
        }
    }
}

/// The decoder reads the text of a sound array.
proof fn lemma_array_read(t: tv::TestValue, s: Seq<u8>, p: int)
    requires
        t is Array,
        sound(t),
        stands_at(s, p, body_text(t)),
    ensures
        reads(s, p, t),
        body_text(t).len() > 0,
    decreases t, 0nat, 0nat,
{
    let a = t->Array_1;
    let b = body_text(t);
    let xs = a.values@;
    let inner = tv::items_text(xs, a.trailing_comma, 0);
    assert(b == seq![0x5Bu8] + inner + seq![0x5Du8]);
    assert(b =~= seq![0x5Bu8] + (inner + seq![0x5Du8]));
    lemma_stands_concat(s, p, seq![0x5Bu8], inner + seq![0x5Du8]);
    assert(s.subrange(p, p + 1)[0] == 0x5Bu8);
    lemma_skip_none(s, p);
    assert(items_sound(xs));
    lemma_items_first(s, p + 1, xs, a.trailing_comma);
    let r = parse_items(s, p + 1, Seq::empty());
    assert(parse(s, p) == Ok::<(Literal, int), (int, DecodeError)>(
        (Literal::Array(r->Ok_0.0), r->Ok_0.1),
    ));
}

/// The decoder reads the text of a sound set.
proof fn lemma_set_read(t: tv::TestValue, s: Seq<u8>, p: int)
    requires
        t is SetOf,
        sound(t),
        stands_at(s, p, body_text(t)),
    ensures
        reads(s, p, t),
        body_text(t).len() > 0,
    decreases t, 0nat, 0nat,
{
    let a = t->SetOf_1;
    let b = body_text(t);
    let xs = a.values@;
    let inner = tv::items_text(xs, a.trailing_comma, 0);
    assert(b == seq![0x40u8, 0x7B] + inner + seq![0x7Du8]);
    assert(b =~= seq![0x40u8, 0x7B] + (inner + seq![0x7Du8]));
    lemma_stands_concat(s, p, seq![0x40u8, 0x7B], inner + seq![0x7Du8]);
    assert(s.subrange(p, p + 2)[0] == 0x40u8);
    assert(s.subrange(p, p + 2)[1] == 0x7Bu8);
    lemma_skip_none(s, p);
    assert(items_sound(xs));
    lemma_keys_first(s, p + 2, xs, a.trailing_comma);
    let r = parse_entries(s, p + 2, true, Seq::empty());
    let ls = r->Ok_0.0;
    assert forall|i: int| 0 <= i < xs.len() implies shaped(ls[i].0, (#[trigger] xs[i]).1)
        && ls[i].1 is Nil by {
        assert(key_shaped(ls[i], xs[i]));
    }
    assert(at(s, p + 1) == Some(0x7Bu8));
    assert(parse(s, p) == Ok::<(Literal, int), (int, DecodeError)>(
        (Literal::Mapping(ls), r->Ok_0.1),
    ));
    assert(shaped(Literal::Mapping(ls), t));
}

/// The decoder reads the text of a sound map.
proof fn lemma_map_read(t: tv::TestValue, s: Seq<u8>, p: int)
    requires
        t is MapOf,
        sound(t),
        stands_at(s, p, body_text(t)),
    ensures
        reads(s, p, t),
        body_text(t).len() > 0,
    decreases t, 0nat, 0nat,
{
    let a = t->MapOf_1;
    let b = body_text(t);
    let es = a.values@;
    let inner = tv::entries_text(es, a.trailing_comma, 0);
    assert(b == seq![0x7Bu8] + inner + seq![0x7Du8]);
    assert(b =~= seq![0x7Bu8] + (inner + seq![0x7Du8]));
    lemma_stands_concat(s, p, seq![0x7Bu8], inner + seq![0x7Du8]);
    assert(s.subrange(p, p + 1)[0] == 0x7Bu8);
    lemma_skip_none(s, p);
    assert(entries_sound(es));
    lemma_entries_first(s, p + 1, es, a.trailing_comma);
    let r = parse_entries(s, p + 1, false, Seq::empty());
    assert(parse(s, p) == Ok::<(Literal, int), (int, DecodeError)>(
        (Literal::Mapping(r->Ok_0.0), r->Ok_0.1),
    ));
}

/// The decoder reads the text of a sound value as a literal that is the one for the value:
/// wherever the text of the value itself stands before the end of a value.
pub proof fn lemma_value_read(t: tv::TestValue, s: Seq<u8>, p: int)
    requires
        sound(t),
        stands_at(s, p, body_text(t)),
        closed_off(s, p + body_text(t).len()),
    ensures
        reads(s, p, t),
        body_text(t).len() > 0,
    decreases t, 0nat, 1nat,
{
    if t is Nil || t is Bool {
        lemma_word_read(t, s, p);
    } else if t is Array {
        lemma_array_read(t, s, p);
    } else if t is SetOf {
        lemma_set_read(t, s, p);
    } else if t is MapOf {
        lemma_map_read(t, s, p);
    } else {
        assert(text_fits(t));
        assert(reads(s, p, t));
    }
}

/// The items of an array are read from its `[` on.
proof fn lemma_items_first(
    s: Seq<u8>,
    q: int,
    xs: Seq<(Spaces, tv::TestValue, Spaces)>,
    trailing: Option<Spaces>,
)
    requires
        0 <= q,
        items_sound(xs),
        gap_valid(trailing),
        stands_at(s, q, tv::items_text(xs, trailing, 0) + seq![0x5Du8]),
    ensures
        match parse_items(s, q, Seq::empty()) {
            Ok((ls, end)) => end == q + tv::items_text(xs, trailing, 0).len() + 1 && ls.len()
                == xs.len() && forall|j: int|
                0 <= j < xs.len() ==> shaped(ls[j], (#[trigger] xs[j]).1),
            Err(_) => false,
        },
    decreases xs, 2nat, 0nat,
{
    let text = tv::items_text(xs, trailing, 0) + seq![0x5Du8];
    if xs.len() == 0 {
        assert(text =~= seq![0x5Du8]);
        assert(s.subrange(q, q + 1)[0] == 0x5Du8);
        lemma_skip_none(s, q);
        assert(item_start(s, q, true, 0x5D) == Ok::<(Option<int>, int), (int, DecodeError)>(
            (None, q + 1),
        ));
    } else {
        let v = xs[0].1;
        let next = next_byte(xs.len(), trailing, 0, 0x5D);
        let tail = items_tail(xs, trailing, 0, 0x5D);
        lemma_items_form(xs, trailing, 0, 0x5D);
        lemma_item_read(s, q, xs[0].0, v, xs[0].2, next, tail);
        let p2 = q + xs[0].0.bytes().len() + lead(v).bytes().len();
        let e = p2 + body_text(v).len();
        assert(item_start(s, q, true, 0x5D) == Ok::<(Option<int>, int), (int, DecodeError)>(
            (Some(p2), p2),
        ));
        let l = parse(s, p2)->Ok_0.0;
        assert(checked(parse(s, p2), p2, s.len() as int) == parse(s, p2));
        lemma_items_from(s, e, xs, trailing, 0, seq![l]);
        let ls = parse_items(s, e, seq![l])->Ok_0.0;
        assert(ls.take(1)[0] == l);
        assert(ls[0] == l);
        assert(tv::items_text(xs, trailing, 0).len() + 1 == text.len());
    }
}

/// The items of an array after item `i` are read from the end of that item on.
proof fn lemma_items_from(
    s: Seq<u8>,
    e: int,
    xs: Seq<(Spaces, tv::TestValue, Spaces)>,
    trailing: Option<Spaces>,
    i: int,
    acc: Seq<Literal>,
)
    requires
        0 <= e,
        0 <= i < xs.len(),
        items_sound(xs),
        gap_valid(trailing),
        acc.len() == i + 1,
        stands_at(
            s,
            e,
            after_value(
                xs[i].2,
                next_byte(xs.len(), trailing, i, 0x5D),
                items_tail(xs, trailing, i, 0x5D),
            ),
        ),
    ensures
        match parse_items(s, e, acc) {
            Ok((ls, end)) => end == e + after_value(
                xs[i].2,
                next_byte(xs.len(), trailing, i, 0x5D),
                items_tail(xs, trailing, i, 0x5D),
            ).len() && ls.len() == xs.len() && ls.take(i + 1) == acc && forall|j: int|
                i < j < xs.len() ==> shaped(ls[j], (#[trigger] xs[j]).1),
            Err(_) => false,
        },
    decreases xs, 1nat, xs.len() - i,
{
    let next = next_byte(xs.len(), trailing, i, 0x5D);
    let tail = items_tail(xs, trailing, i, 0x5D);
    lemma_skipped_to(s, e, xs[i].2, next, tail);
    let a = e + xs[i].2.bytes().len();
    if next == 0x5D {
        assert(tail =~= Seq::<u8>::empty());
        assert(item_start(s, e, false, 0x5D) == Ok::<(Option<int>, int), (int, DecodeError)>(
            (None, a + 1),
        ));
        assert(acc.take(i + 1) =~= acc);
    } else if i + 1 == xs.len() {
        let w = trailing->Some_0;
        assert(tail =~= w.bytes() + seq![0x5Du8] + Seq::<u8>::empty());
        lemma_skipped_to(s, a + 1, w, 0x5D, Seq::empty());
        let b = a + 1 + w.bytes().len();
        assert(item_start(s, e, false, 0x5D) == Ok::<(Option<int>, int), (int, DecodeError)>(
            (None, b + 1),
        ));
        assert(acc.take(i + 1) =~= acc);
    } else {
        let v = xs[i + 1].1;
        let next2 = next_byte(xs.len(), trailing, i + 1, 0x5D);
        let tail2 = items_tail(xs, trailing, i + 1, 0x5D);
        lemma_items_form(xs, trailing, i + 1, 0x5D);
        lemma_item_read(s, a + 1, xs[i + 1].0, v, xs[i + 1].2, next2, tail2);
        let p2 = a + 1 + xs[i + 1].0.bytes().len() + lead(v).bytes().len();
        let e2 = p2 + body_text(v).len();
        assert(item_start(s, e, false, 0x5D) == Ok::<(Option<int>, int), (int, DecodeError)>(
            (Some(p2), p2),
        ));
        let l = parse(s, p2)->Ok_0.0;
        assert(checked(parse(s, p2), p2, s.len() as int) == parse(s, p2));
        lemma_items_from(s, e2, xs, trailing, i + 1, acc.push(l));
        let ls = parse_items(s, e2, acc.push(l))->Ok_0.0;
        assert(ls.take(i + 2)[i + 1] == l);
        assert(ls.take(i + 1) =~= ls.take(i + 2).take(i + 1));
        assert(acc.push(l).take(i + 1) =~= acc);
    }
}

/// The items of a set are read from its `@{` on.
proof fn lemma_keys_first(
    s: Seq<u8>,
    q: int,
    xs: Seq<(Spaces, tv::TestValue, Spaces)>,
    trailing: Option<Spaces>,
)
    requires
        0 <= q,
        items_sound(xs),
        gap_valid(trailing),
        stands_at(s, q, tv::items_text(xs, trailing, 0) + seq![0x7Du8]),
    ensures
        match parse_entries(s, q, true, Seq::empty()) {
            Ok((ls, end)) => end == q + tv::items_text(xs, trailing, 0).len() + 1 && ls.len()
                == xs.len() && forall|j: int|
                0 <= j < xs.len() ==> #[trigger] key_shaped(ls[j], xs[j]),
            Err(_) => false,
        },
    decreases xs, 2nat, 0nat,
{
    let text = tv::items_text(xs, trailing, 0) + seq![0x7Du8];
    if xs.len() == 0 {
        assert(text =~= seq![0x7Du8]);
        assert(s.subrange(q, q + 1)[0] == 0x7Du8);
        lemma_skip_none(s, q);
        assert(item_start(s, q, true, 0x7D) == Ok::<(Option<int>, int), (int, DecodeError)>(
            (None, q + 1),
        ));
    } else {
        let v = xs[0].1;
        let next = next_byte(xs.len(), trailing, 0, 0x7D);
        let tail = items_tail(xs, trailing, 0, 0x7D);
        lemma_items_form(xs, trailing, 0, 0x7D);
        lemma_item_read(s, q, xs[0].0, v, xs[0].2, next, tail);
        let p2 = q + xs[0].0.bytes().len() + lead(v).bytes().len();
        let e = p2 + body_text(v).len();
        assert(item_start(s, q, true, 0x7D) == Ok::<(Option<int>, int), (int, DecodeError)>(
            (Some(p2), p2),
        ));
        let l = parse(s, p2)->Ok_0.0;
        assert(checked(parse(s, p2), p2, s.len() as int) == parse(s, p2));
        lemma_keys_from(s, e, xs, trailing, 0, seq![(l, Literal::Nil)]);
        assert(Seq::<(Literal, Literal)>::empty().push((l, Literal::Nil)) =~= seq![
            (l, Literal::Nil),
        ]);
        assert(parse_entries(s, q, true, Seq::empty()) == parse_entries(
            s,
            e,
            true,
            seq![(l, Literal::Nil)],
        ));
        let ls = parse_entries(s, e, true, seq![(l, Literal::Nil)])->Ok_0.0;
        assert(ls.take(1)[0] == (l, Literal::Nil));
        assert(ls[0] == (l, Literal::Nil));
        assert(key_shaped(ls[0], xs[0]));
        assert(tv::items_text(xs, trailing, 0).len() + 1 == text.len());
    }
}

/// The items of a set after item `i` are read from the end of that item on.
proof fn lemma_keys_from(
    s: Seq<u8>,
    e: int,
    xs: Seq<(Spaces, tv::TestValue, Spaces)>,
    trailing: Option<Spaces>,
    i: int,
    acc: Seq<(Literal, Literal)>,
)
    requires
        0 <= e,
        0 <= i < xs.len(),
        items_sound(xs),
        gap_valid(trailing),
        acc.len() == i + 1,
        stands_at(
            s,
            e,
            after_value(
                xs[i].2,
                next_byte(xs.len(), trailing, i, 0x7D),
                items_tail(xs, trailing, i, 0x7D),
            ),
        ),
    ensures
        match parse_entries(s, e, true, acc) {
            Ok((ls, end)) => end == e + after_value(
                xs[i].2,
                next_byte(xs.len(), trailing, i, 0x7D),
                items_tail(xs, trailing, i, 0x7D),
            ).len() && ls.len() == xs.len() && ls.take(i + 1) == acc && forall|j: int|
                i < j < xs.len() ==> #[trigger] key_shaped(ls[j], xs[j]),
            Err(_) => false,
        },
    decreases xs, 1nat, xs.len() - i,
{
    let next = next_byte(xs.len(), trailing, i, 0x7D);
    let tail = items_tail(xs, trailing, i, 0x7D);
    lemma_skipped_to(s, e, xs[i].2, next, tail);
    let a = e + xs[i].2.bytes().len();
    if next == 0x7D {
        assert(tail =~= Seq::<u8>::empty());
        assert(item_start(s, e, false, 0x7D) == Ok::<(Option<int>, int), (int, DecodeError)>(
            (None, a + 1),
        ));
        assert(acc.take(i + 1) =~= acc);
    } else if i + 1 == xs.len() {
        let w = trailing->Some_0;
        assert(tail =~= w.bytes() + seq![0x7Du8] + Seq::<u8>::empty());
        lemma_skipped_to(s, a + 1, w, 0x7D, Seq::empty());
        let b = a + 1 + w.bytes().len();
        assert(item_start(s, e, false, 0x7D) == Ok::<(Option<int>, int), (int, DecodeError)>(
            (None, b + 1),
        ));
        assert(acc.take(i + 1) =~= acc);
    } else {
        let v = xs[i + 1].1;
        let next2 = next_byte(xs.len(), trailing, i + 1, 0x7D);
        let tail2 = items_tail(xs, trailing, i + 1, 0x7D);
        lemma_items_form(xs, trailing, i + 1, 0x7D);
        lemma_item_read(s, a + 1, xs[i + 1].0, v, xs[i + 1].2, next2, tail2);
        let p2 = a + 1 + xs[i + 1].0.bytes().len() + lead(v).bytes().len();
        let e2 = p2 + body_text(v).len();
        assert(item_start(s, e, false, 0x7D) == Ok::<(Option<int>, int), (int, DecodeError)>(
            (Some(p2), p2),
        ));
        let l = parse(s, p2)->Ok_0.0;
        assert(checked(parse(s, p2), p2, s.len() as int) == parse(s, p2));
        let more = acc.push((l, Literal::Nil));
        lemma_keys_from(s, e2, xs, trailing, i + 1, more);
        assert(parse_entries(s, e, true, acc) == parse_entries(s, e2, true, more));
        let ls = parse_entries(s, e2, true, more)->Ok_0.0;
        assert(ls.take(i + 2)[i + 1] == (l, Literal::Nil));
        assert(ls.take(i + 1) =~= ls.take(i + 2).take(i + 1));
        assert(more.take(i + 1) =~= acc);
        assert(key_shaped(ls[i + 1], xs[i + 1]));
    }
}

/// Whether the whitespace around every key and value is valid and every key and value is
/// sound.
pub open spec fn entries_sound(
    es: Seq<(Spaces, tv::TestValue, Spaces, Spaces, tv::TestValue, Spaces)>,
) -> bool {
    forall|i: int|
        0 <= i < es.len() ==> spaces_valid((#[trigger] es[i]).0.0@) && sound(es[i].1)
            && spaces_valid(es[i].2.0@) && spaces_valid(es[i].3.0@) && sound(es[i].4)
            && spaces_valid(es[i].5.0@)
}

/// What follows the comma after entry `i`, or nothing after the closing byte: the later
/// entries, or the whitespace after the trailing comma, and the closing byte.
pub open spec fn entries_tail(
    es: Seq<(Spaces, tv::TestValue, Spaces, Spaces, tv::TestValue, Spaces)>,
    trailing: Option<Spaces>,
    i: int,
) -> Seq<u8> {
    if i + 1 == es.len() {
        match trailing {
            None => Seq::empty(),
            Some(w) => w.bytes() + seq![0x7Du8],
        }
    } else {
        tv::entries_text(es, trailing, i + 1) + seq![0x7Du8]
    }
}

/// The value of entry `i` with the whitespace before it, and what follows it up to the end
/// of the map.
pub open spec fn value_part(
    es: Seq<(Spaces, tv::TestValue, Spaces, Spaces, tv::TestValue, Spaces)>,
    trailing: Option<Spaces>,
    i: int,
) -> Seq<u8> {
    es[i].3.bytes() + (lead(es[i].4).bytes() + (body_text(es[i].4) + after_value(
        es[i].5,
        next_byte(es.len(), trailing, i, 0x7D),
        entries_tail(es, trailing, i),
    )))
}

/// Joining the parts of an entry and what follows it does not depend on the grouping.
proof fn lemma_join_entry(
    e0: Seq<u8>,
    lk: Seq<u8>,
    bk: Seq<u8>,
    e2: Seq<u8>,
    e3: Seq<u8>,
    lv: Seq<u8>,
    bv: Seq<u8>,
    e5: Seq<u8>,
    sep: Seq<u8>,
    rest: Seq<u8>,
    close: Seq<u8>,
)
    ensures
        (e0 + (lk + bk) + e2 + seq![0x3Au8] + e3 + (lv + bv) + e5) + sep + rest + close == e0 + (lk
            + (bk + (e2 + seq![0x3Au8] + (e3 + (lv + (bv + (e5 + (sep + rest + close)))))))),
{
    assert((e0 + (lk + bk) + e2 + seq![0x3Au8] + e3 + (lv + bv) + e5) + sep + rest + close =~= e0
        + (lk + (bk + (e2 + seq![0x3Au8] + (e3 + (lv + (bv + (e5 + (sep + rest + close)))))))));
}

/// What follows the value of entry `i` up to the end of the map, part by part.
proof fn lemma_closing_form(
    es: Seq<(Spaces, tv::TestValue, Spaces, Spaces, tv::TestValue, Spaces)>,
    trailing: Option<Spaces>,
    i: int,
)
    requires
        0 <= i < es.len(),
    ensures
        es[i].5.bytes() + (tv::separator(es.len(), trailing, i) + tv::entries_text(
            es,
            trailing,
            i + 1,
        ) + seq![0x7Du8]) == after_value(
            es[i].5,
            next_byte(es.len(), trailing, i, 0x7D),
            entries_tail(es, trailing, i),
        ),
{
    let sep = tv::separator(es.len(), trailing, i);
    let rest = tv::entries_text(es, trailing, i + 1);
    if i + 1 == es.len() {
        assert(rest =~= Seq::<u8>::empty());
    }
    assert(es[i].5.bytes() + (sep + rest + seq![0x7Du8]) =~= after_value(
        es[i].5,
        next_byte(es.len(), trailing, i, 0x7D),
        entries_tail(es, trailing, i),
    ));
}

/// The entries from index `i` on, and the closing byte, part by part.
proof fn lemma_entries_form(
    es: Seq<(Spaces, tv::TestValue, Spaces, Spaces, tv::TestValue, Spaces)>,
    trailing: Option<Spaces>,
    i: int,
)
    requires
        0 <= i < es.len(),
    ensures
        tv::entries_text(es, trailing, i) + seq![0x7Du8] == es[i].0.bytes() + (lead(
            es[i].1,
        ).bytes() + (body_text(es[i].1) + after_value(
            es[i].2,
            0x3A,
            value_part(es, trailing, i),
        ))),
{
    let e = es[i];
    let close = seq![0x7Du8];
    let sep = tv::separator(es.len(), trailing, i);
    let rest = tv::entries_text(es, trailing, i + 1);
    lemma_text_parts(e.1);
    lemma_text_parts(e.4);
    lemma_closing_form(es, trailing, i);
    lemma_join_entry(
        e.0.bytes(),
        lead(e.1).bytes(),
        body_text(e.1),
        e.2.bytes(),
        e.3.bytes(),
        lead(e.4).bytes(),
        body_text(e.4),
        e.5.bytes(),
        sep,
        rest,
        close,
    );
    assert(tv::entries_text(es, trailing, i) == tv::entry_text(e) + sep + rest);
    assert(tv::entry_text(e) == e.0.bytes() + e.1.bytes() + e.2.bytes() + seq![0x3Au8]
        + e.3.bytes() + e.4.bytes() + e.5.bytes());
    assert(after_value(e.2, 0x3A, value_part(es, trailing, i)) == e.2.bytes() + seq![0x3Au8]
        + value_part(es, trailing, i));
}

/// Where the decoder reads a value after whitespace, it reads the same from the start of
/// the whitespace.
proof fn lemma_parse_after_spaces(s: Seq<u8>, c: int, p: int)
    requires
        0 <= c <= p < s.len(),
        skip_spaces(s, c) == Ok::<((), int), (int, DecodeError)>(((), p)),
        skip_spaces(s, p) == Ok::<((), int), (int, DecodeError)>(((), p)),
    ensures
        parse(s, c) == parse(s, p),
{
}

/// Entry `i` of a map is read from where its key may begin, and the entries after it.
proof fn lemma_entry_read(
    s: Seq<u8>,
    b0: int,
    es: Seq<(Spaces, tv::TestValue, Spaces, Spaces, tv::TestValue, Spaces)>,
    trailing: Option<Spaces>,
    i: int,
    acc: Seq<(Literal, Literal)>,
)
    requires
        0 <= b0,
        0 <= i < es.len(),
        entries_sound(es),
        gap_valid(trailing),
        acc.len() == i,
        stands_at(s, b0, tv::entries_text(es, trailing, i) + seq![0x7Du8]),
    ensures
        skip_spaces(s, b0) == Ok::<((), int), (int, DecodeError)>(
            ((), b0 + es[i].0.bytes().len() + lead(es[i].1).bytes().len()),
        ),
        opens(s, b0 + es[i].0.bytes().len() + lead(es[i].1).bytes().len()),
        match checked(
            parse(s, b0 + es[i].0.bytes().len() + lead(es[i].1).bytes().len()),
            b0 + es[i].0.bytes().len() + lead(es[i].1).bytes().len(),
            s.len() as int,
        ) {
            Ok((k, q)) => match checked(colon(s, q), q, s.len() as int) {
                Ok((_, c)) => match checked(parse(s, c), c, s.len() as int) {
                    Ok((v, r)) => shaped(k, es[i].1) && shaped(v, es[i].4) && match parse_entries(
                        s,
                        r,
                        false,
                        acc.push((k, v)),
                    ) {
                        Ok((ls, end)) => end == b0 + tv::entries_text(es, trailing, i).len() + 1
                            && ls.len() == es.len() && ls.take(i + 1) == acc.push((k, v))
                            && forall|j: int|
                            i < j < es.len() ==> shaped(ls[j].0, (#[trigger] es[j]).1) && shaped(
                                ls[j].1,
                                es[j].4,
                            ),
                        Err(_) => false,
                    },
                    Err(_) => false,
                },
                Err(_) => false,
            },
            Err(_) => false,
        },
    decreases es, 1nat, 2 * (es.len() - i) + 1,
{
    let key = es[i].1;
    let val = es[i].4;
    let next = next_byte(es.len(), trailing, i, 0x7D);
    let tail = entries_tail(es, trailing, i);
    let part = value_part(es, trailing, i);
    lemma_entries_form(es, trailing, i);
    lemma_item_read(s, b0, es[i].0, key, es[i].2, 0x3A, part);
    let p2 = b0 + es[i].0.bytes().len() + lead(key).bytes().len();
    let q = p2 + body_text(key).len();
    assert(checked(parse(s, p2), p2, s.len() as int) == parse(s, p2));
    let k = parse(s, p2)->Ok_0.0;
    lemma_skipped_to(s, q, es[i].2, 0x3A, part);
    let c0 = q + es[i].2.bytes().len();
    assert(colon(s, q) == Ok::<((), int), (int, DecodeError)>(((), c0 + 1)));
    let c = c0 + 1;
    lemma_item_read(s, c, es[i].3, val, es[i].5, next, tail);
    let p3 = c + es[i].3.bytes().len() + lead(val).bytes().len();
    let r = p3 + body_text(val).len();
    lemma_skip_none(s, p3);
    lemma_parse_after_spaces(s, c, p3);
    assert(checked(parse(s, c), c, s.len() as int) == parse(s, p3));
    let v = parse(s, p3)->Ok_0.0;
    lemma_entries_from(s, r, es, trailing, i, acc.push((k, v)));
    assert(tv::entries_text(es, trailing, i).len() + 1 == (tv::entries_text(es, trailing, i)
        + seq![0x7Du8]).len());
}

/// The entries of a map are read from its `{` on.
proof fn lemma_entries_first(
    s: Seq<u8>,
    q: int,
    es: Seq<(Spaces, tv::TestValue, Spaces, Spaces, tv::TestValue, Spaces)>,
    trailing: Option<Spaces>,
)
    requires
        0 <= q,
        entries_sound(es),
        gap_valid(trailing),
        stands_at(s, q, tv::entries_text(es, trailing, 0) + seq![0x7Du8]),
    ensures
        match parse_entries(s, q, false, Seq::empty()) {
            Ok((ls, end)) => end == q + tv::entries_text(es, trailing, 0).len() + 1 && ls.len()
                == es.len() && forall|j: int|
                0 <= j < es.len() ==> shaped(ls[j].0, (#[trigger] es[j]).1) && shaped(
                    ls[j].1,
                    es[j].4,
                ),
            Err(_) => false,
        },
    decreases es, 2nat, 0nat,
{
    let text = tv::entries_text(es, trailing, 0) + seq![0x7Du8];
    if es.len() == 0 {
        assert(text =~= seq![0x7Du8]);
        assert(s.subrange(q, q + 1)[0] == 0x7Du8);
        lemma_skip_none(s, q);
        assert(item_start(s, q, true, 0x7D) == Ok::<(Option<int>, int), (int, DecodeError)>(
            (None, q + 1),
        ));
    } else {
        let acc = Seq::<(Literal, Literal)>::empty();
        lemma_entry_read(s, q, es, trailing, 0, acc);
        let p2 = q + es[0].0.bytes().len() + lead(es[0].1).bytes().len();
        assert(item_start(s, q, true, 0x7D) == Ok::<(Option<int>, int), (int, DecodeError)>(
            (Some(p2), p2),
        ));
        let (k, kq) = checked(parse(s, p2), p2, s.len() as int)->Ok_0;
        let (_, c) = checked(colon(s, kq), kq, s.len() as int)->Ok_0;
        let (v, r) = checked(parse(s, c), c, s.len() as int)->Ok_0;
        let ls = parse_entries(s, r, false, acc.push((k, v)))->Ok_0.0;
        assert(ls.take(1)[0] == acc.push((k, v))[0]);
        assert(ls[0] == (k, v));
    }
}

/// The entries of a map after entry `i` are read from the end of that entry on.
proof fn lemma_entries_from(
    s: Seq<u8>,
    e: int,
    es: Seq<(Spaces, tv::TestValue, Spaces, Spaces, tv::TestValue, Spaces)>,
    trailing: Option<Spaces>,
    i: int,
    acc: Seq<(Literal, Literal)>,
)
    requires
        0 <= e,
        0 <= i < es.len(),
        entries_sound(es),
        gap_valid(trailing),
        acc.len() == i + 1,
        stands_at(
            s,
            e,
            after_value(
                es[i].5,
                next_byte(es.len(), trailing, i, 0x7D),
                entries_tail(es, trailing, i),
            ),
        ),
    ensures
        match parse_entries(s, e, false, acc) {
            Ok((ls, end)) => end == e + after_value(
                es[i].5,
                next_byte(es.len(), trailing, i, 0x7D),
                entries_tail(es, trailing, i),
            ).len() && ls.len() == es.len() && ls.take(i + 1) == acc && forall|j: int|
                i < j < es.len() ==> shaped(ls[j].0, (#[trigger] es[j]).1) && shaped(
                    ls[j].1,
                    es[j].4,
                ),
            Err(_) => false,
        },
    decreases es, 1nat, 2 * (es.len() - i),
{
    let next = next_byte(es.len(), trailing, i, 0x7D);
    let tail = entries_tail(es, trailing, i);
    lemma_skipped_to(s, e, es[i].5, next, tail);
    let a = e + es[i].5.bytes().len();
    if next == 0x7D {
        assert(tail =~= Seq::<u8>::empty());
        assert(item_start(s, e, false, 0x7D) == Ok::<(Option<int>, int), (int, DecodeError)>(
            (None, a + 1),
        ));
        assert(acc.take(i + 1) =~= acc);
    } else if i + 1 == es.len() {
        let w = trailing->Some_0;
        assert(tail =~= w.bytes() + seq![0x7Du8] + Seq::<u8>::empty());
        lemma_skipped_to(s, a + 1, w, 0x7D, Seq::empty());
        let b = a + 1 + w.bytes().len();
        assert(item_start(s, e, false, 0x7D) == Ok::<(Option<int>, int), (int, DecodeError)>(
            (None, b + 1),
        ));
        assert(acc.take(i + 1) =~= acc);
    } else {
        lemma_entry_read(s, a + 1, es, trailing, i + 1, acc);
        let p2 = a + 1 + es[i + 1].0.bytes().len() + lead(es[i + 1].1).bytes().len();
        assert(item_start(s, e, false, 0x7D) == Ok::<(Option<int>, int), (int, DecodeError)>(
            (Some(p2), p2),
        ));
        let (k, kq) = checked(parse(s, p2), p2, s.len() as int)->Ok_0;
        let (_, c) = checked(colon(s, kq), kq, s.len() as int)->Ok_0;
        let (v, r) = checked(parse(s, c), c, s.len() as int)->Ok_0;
        let more = acc.push((k, v));
        let ls = parse_entries(s, r, false, more)->Ok_0.0;
        assert(ls.take(i + 2)[i + 1] == more[i + 1]);
        assert(ls.take(i + 1) =~= ls.take(i + 2).take(i + 1));
        assert(more.take(i + 1) =~= acc);
    }
}

/// The human-readable decoder reads the chosen text of every sound value as a literal
/// that is the one for the value, and ends where the text ends: wherever the text stands
/// before the end of a value.
pub proof fn law_generated_text_is_read(t: tv::TestValue, s: Seq<u8>, pos: int)
    requires
        sound(t),
        stands_at(s, pos, t.bytes()),
        closed_off(s, pos + t.bytes().len()),
    ensures
        match parse(s, pos) {
            Ok((l, end)) => end == pos + t.bytes().len() && shaped(l, t),
            Err(_) => false,
        },
{
    lemma_text_parts(t);
    lemma_stands_concat(s, pos, lead(t).bytes(), body_text(t));
    let p = pos + lead(t).bytes().len();
    lemma_value_read(t, s, p);
    lemma_spaces_skipped(s, pos, lead(t).0@, 0);
    lemma_skip_none(s, p);
    lemma_parse_after_spaces(s, pos, p);
}

/// The bits of the floats of a value whose literals are decimal, in the order in which
/// they stand: the table with which the literal for the value stands for the value.
pub open spec fn decimal_bits(l: Literal, t: tv::TestValue) -> Seq<u64>
    decreases t, 0nat, 0nat,
{
    match t {
        tv::TestValue::Float(_, v) => if l is Float && l->Float_0 is Decimal {
            seq![v.bits]
        } else {
            Seq::empty()
        },
        tv::TestValue::Array(_, a) => if l is Array {
            items_bits_of(l->Array_0, a.values@, a.values@.len())
        } else {
            Seq::empty()
        },
        tv::TestValue::SetOf(_, a) => if l is Mapping {
            keys_bits_of(l->Mapping_0, a.values@, a.values@.len())
        } else {
            Seq::empty()
        },
        tv::TestValue::MapOf(_, a) => if l is Mapping {
            entries_bits_of(l->Mapping_0, a.values@, a.values@.len())
        } else {
            Seq::empty()
        },
        _ => Seq::empty(),
    }
}

/// The table for the first `n` items of an array.
pub open spec fn items_bits_of(
    ls: Seq<Literal>,
    xs: Seq<(Spaces, tv::TestValue, Spaces)>,
    n: nat,
) -> Seq<u64>
    decreases xs, 1nat, n,
{
    if n == 0 || n > xs.len() || n > ls.len() {
        Seq::empty()
    } else {
        items_bits_of(ls, xs, (n - 1) as nat) + decimal_bits(ls[n - 1], xs[n - 1].1)
    }
}

/// The table for the first `n` items of a set.
pub open spec fn keys_bits_of(
    ls: Seq<(Literal, Literal)>,
    xs: Seq<(Spaces, tv::TestValue, Spaces)>,
    n: nat,
) -> Seq<u64>
    decreases xs, 1nat, n,
{
    if n == 0 || n > xs.len() || n > ls.len() {
        Seq::empty()
    } else {
        keys_bits_of(ls, xs, (n - 1) as nat) + decimal_bits(ls[n - 1].0, xs[n - 1].1)
    }
}

/// The table for the first `n` entries of a map.
pub open spec fn entries_bits_of(
    ls: Seq<(Literal, Literal)>,
    es: Seq<(Spaces, tv::TestValue, Spaces, Spaces, tv::TestValue, Spaces)>,
    n: nat,
) -> Seq<u64>
    decreases es, 1nat, n,
{
    if n == 0 || n > es.len() || n > ls.len() {
        Seq::empty()
    } else {
        entries_bits_of(ls, es, (n - 1) as nat) + decimal_bits(ls[n - 1].0, es[n - 1].1)
            + decimal_bits(ls[n - 1].1, es[n - 1].4)
    }
}

/// The bits `d` stand in the table at index `k`.
pub open spec fn table_at(bits: Seq<u64>, k: int, d: Seq<u64>) -> bool {
    0 <= k && k + d.len() <= bits.len() && bits.subrange(k, k + d.len()) == d
}

/// Where `a + b` stands in a table, `a` stands there, and `b` right after it.
proof fn lemma_table_concat(bits: Seq<u64>, k: int, a: Seq<u64>, b: Seq<u64>)
    requires
        table_at(bits, k, a + b),
    ensures
        table_at(bits, k, a),
        table_at(bits, k + a.len(), b),
{
    let ab = bits.subrange(k, k + (a + b).len());
    assert forall|i: int| 0 <= i < a.len() implies bits.subrange(k, k + a.len())[i] == a[i] by {
        assert(ab[i] == (a + b)[i]);
    }
    assert(bits.subrange(k, k + a.len()) =~= a);
    assert forall|i: int| 0 <= i < b.len() implies bits.subrange(
        k + a.len(),
        k + a.len() + b.len(),
    )[i] == b[i] by {
        assert(ab[a.len() + i] == (a + b)[a.len() + i]);
    }
    assert(bits.subrange(k + a.len(), k + a.len() + b.len()) =~= b);
}

/// The literal for an array of bytes stands for the array, and has no float.
proof fn lemma_bytes_value(b: Seq<u8>, bits: Seq<u64>, k: int, n: nat)
    requires
        n <= b.len(),
    ensures
        crate::human::value::items_of(byte_literals(b), bits, k, n) == crate::compact::de::byte_items(
            b,
        ).take(n as int),
        crate::human::value::items_texts(byte_literals(b), n).len() == 0,
    decreases n,
{
    let ls = byte_literals(b);
    if n > 0 {
        lemma_bytes_value(b, bits, k, (n - 1) as nat);
        assert(crate::human::value::texts(ls[n - 1]) =~= Seq::<Seq<u8>>::empty());
        assert(ls[n - 1] == Literal::Int(b[n - 1] as i64));
        assert(crate::human::value::items_of(ls, bits, k, n) == crate::human::value::items_of(
            ls,
            bits,
            k,
            (n - 1) as nat,
        ).push(
            crate::human::value::value_of(
                ls[n - 1],
                bits,
                k + crate::human::value::items_texts(ls, (n - 1) as nat).len(),
            ),
        ));
        assert(crate::compact::de::byte_items(b)[n - 1] == crate::value::Tree::Int(
            b[n - 1] as i64,
        ));
        assert(crate::compact::de::byte_items(b).take(n - 1).push(
            crate::compact::de::byte_items(b)[n - 1],
        ) =~= crate::compact::de::byte_items(b).take(n as int));
    } else {
        assert(crate::compact::de::byte_items(b).take(0) =~= Seq::<crate::value::Tree>::empty());
    }
}

/// A literal that is the one for a value stands for the value, with the table of the
/// value's floats whose literals are decimal; and it has as many decimal float literals as
/// the table has floats.
pub proof fn lemma_shaped_value(l: Literal, t: tv::TestValue, bits: Seq<u64>, k: int)
    requires
        shaped(l, t),
        table_at(bits, k, decimal_bits(l, t)),
    ensures
        crate::human::value::value_of(l, bits, k) == t.value(),
        crate::human::value::texts(l).len() == decimal_bits(l, t).len(),
    decreases t, 0nat, 0nat,
{
    match t {
        tv::TestValue::Float(_, v) => {
            assert(crate::value::NAN_BITS % crate::value::SIGN_BIT == 0x7FFF_FFFF_FFFF_FFFFu64);
            assert(crate::value::INF_BITS % crate::value::SIGN_BIT == crate::value::INF_BITS);
            assert(crate::value::NEG_INF_BITS % crate::value::SIGN_BIT
                == crate::value::INF_BITS);
            if l->Float_0 is Decimal {
                assert(bits.subrange(k, k + 1)[0] == v.bits);
            }
        },
        tv::TestValue::ByteString(_, v) => {
            lemma_bytes_value(v.bytes@, bits, k, v.bytes@.len());
            assert(crate::compact::de::byte_items(v.bytes@).take(v.bytes@.len() as int)
                =~= crate::compact::de::byte_items(v.bytes@));
        },
        tv::TestValue::Utf8String(_, v) => {
            let b = encode_utf8(v.string@);
            lemma_bytes_value(b, bits, k, b.len());
            assert(crate::compact::de::byte_items(b).take(b.len() as int)
                =~= crate::compact::de::byte_items(b));
        },
        tv::TestValue::Array(_, a) => {
            let xs = a.values@;
            let ls = l->Array_0;
            lemma_shaped_items(ls, xs, bits, k, xs.len());
            assert(tv::items_values(xs).take(xs.len() as int) =~= tv::items_values(xs));
        },
        tv::TestValue::SetOf(_, a) => {
            let xs = a.values@;
            let ls = l->Mapping_0;
            lemma_shaped_keys(ls, xs, bits, k, xs.len());
        },
        tv::TestValue::MapOf(_, a) => {
            let es = a.values@;
            let ls = l->Mapping_0;
            lemma_shaped_entries(ls, es, bits, k, es.len());
        },
        _ => {},
    }
}

proof fn lemma_shaped_items(
    ls: Seq<Literal>,
    xs: Seq<(Spaces, tv::TestValue, Spaces)>,
    bits: Seq<u64>,
    k: int,
    n: nat,
)
    requires
        n <= xs.len(),
        ls.len() == xs.len(),
        forall|i: int| 0 <= i < xs.len() ==> shaped(ls[i], (#[trigger] xs[i]).1),
        table_at(bits, k, items_bits_of(ls, xs, n)),
    ensures
        crate::human::value::items_of(ls, bits, k, n) == tv::items_values(xs).take(n as int),
        crate::human::value::items_texts(ls, n).len() == items_bits_of(ls, xs, n).len(),
    decreases xs, 1nat, n,
{
    if n > 0 {
        let before = items_bits_of(ls, xs, (n - 1) as nat);
        let here = decimal_bits(ls[n - 1], xs[n - 1].1);
        lemma_table_concat(bits, k, before, here);
        lemma_shaped_items(ls, xs, bits, k, (n - 1) as nat);
        assert(shaped(ls[n - 1], xs[n - 1].1));
        lemma_shaped_value(ls[n - 1], xs[n - 1].1, bits, k + before.len());
        assert(tv::items_values(xs).take(n - 1).push(tv::items_values(xs)[n - 1])
            =~= tv::items_values(xs).take(n as int));
    } else {
        assert(tv::items_values(xs).take(0) =~= Seq::<crate::value::Tree>::empty());
    }
}

proof fn lemma_shaped_keys(
    ls: Seq<(Literal, Literal)>,
    xs: Seq<(Spaces, tv::TestValue, Spaces)>,
    bits: Seq<u64>,
    k: int,
    n: nat,
)
    requires
        n <= xs.len(),
        ls.len() == xs.len(),
        forall|i: int| 0 <= i < xs.len() ==> #[trigger] key_shaped(ls[i], xs[i]),
        table_at(bits, k, keys_bits_of(ls, xs, n)),
    ensures
        crate::human::value::entries_of(ls, bits, k, n) == tv::keys_value(xs, n),
        crate::human::value::entries_texts(ls, n).len() == keys_bits_of(ls, xs, n).len(),
    decreases xs, 1nat, n,
{
    if n > 0 {
        let before = keys_bits_of(ls, xs, (n - 1) as nat);
        let here = decimal_bits(ls[n - 1].0, xs[n - 1].1);
        lemma_table_concat(bits, k, before, here);
        lemma_shaped_keys(ls, xs, bits, k, (n - 1) as nat);
        assert(key_shaped(ls[n - 1], xs[n - 1]));
        lemma_shaped_value(ls[n - 1].0, xs[n - 1].1, bits, k + before.len());
        assert(crate::human::value::texts(ls[n - 1].1) =~= Seq::<Seq<u8>>::empty());
        let at = k + crate::human::value::entries_texts(ls, (n - 1) as nat).len();
        assert(crate::human::value::entries_of(ls, bits, k, n) == insert(
            crate::human::value::entries_of(ls, bits, k, (n - 1) as nat),
            crate::human::value::value_of(ls[n - 1].0, bits, at),
            crate::human::value::value_of(
                ls[n - 1].1,
                bits,
                at + crate::human::value::texts(ls[n - 1].0).len(),
            ),
        ));
    }
}

proof fn lemma_shaped_entries(
    ls: Seq<(Literal, Literal)>,
    es: Seq<(Spaces, tv::TestValue, Spaces, Spaces, tv::TestValue, Spaces)>,
    bits: Seq<u64>,
    k: int,
    n: nat,
)
    requires
        n <= es.len(),
        ls.len() == es.len(),
        forall|i: int|
            0 <= i < es.len() ==> shaped(ls[i].0, (#[trigger] es[i]).1) && shaped(
                ls[i].1,
                es[i].4,
            ),
        table_at(bits, k, entries_bits_of(ls, es, n)),
    ensures
        crate::human::value::entries_of(ls, bits, k, n) == tv::entries_value(es, n),
        crate::human::value::entries_texts(ls, n).len() == entries_bits_of(ls, es, n).len(),
    decreases es, 1nat, n,
{
    if n > 0 {
        let before = entries_bits_of(ls, es, (n - 1) as nat);
        let key = decimal_bits(ls[n - 1].0, es[n - 1].1);
        let value = decimal_bits(ls[n - 1].1, es[n - 1].4);
        lemma_table_concat(bits, k, before + key, value);
        lemma_table_concat(bits, k, before, key);
        lemma_shaped_entries(ls, es, bits, k, (n - 1) as nat);
        assert(shaped(ls[n - 1].0, es[n - 1].1) && shaped(ls[n - 1].1, es[n - 1].4));
        lemma_shaped_value(ls[n - 1].0, es[n - 1].1, bits, k + before.len());
        lemma_shaped_value(ls[n - 1].1, es[n - 1].4, bits, k + before.len() + key.len());
    }
}

/// The human-readable decoder reads the chosen text of every sound value as the value:
/// it reads a literal that, with the table of the value's floats whose literals are
/// decimal, stands for the value; and it ends where the text ends.
pub proof fn law_generated_text_is_its_value(t: tv::TestValue, s: Seq<u8>, pos: int)
    requires
        sound(t),
        stands_at(s, pos, t.bytes()),
        closed_off(s, pos + t.bytes().len()),
    ensures
        match parse(s, pos) {
            Ok((l, end)) => end == pos + t.bytes().len() && crate::human::value::value_of(
                l,
                decimal_bits(l, t),
                0,
            ) == t.value() && crate::human::value::texts(l).len() == decimal_bits(l, t).len(),
            Err(_) => false,
        },
{
    law_generated_text_is_read(t, s, pos);
    let l = parse(s, pos)->Ok_0.0;
    let d = decimal_bits(l, t);
    assert(d.subrange(0, d.len() as int) =~= d);
    lemma_shaped_value(l, t, d, 0);
}

/// The text of an int in any of its human-readable forms is one for the int: a value
/// whose text is chosen so is sound.
pub proof fn law_int_texts_fit(v: Int, w: Spaces, leaf: tv::Int)
    requires
        v is Human,
        leaf.n == v.value(),
        leaf.text@ == v.bytes(),
    ensures
        text_fits(tv::TestValue::Int(w, leaf)),
{
    let t = tv::TestValue::Int(w, leaf);
    assert forall|s: Seq<u8>, p: int|
        stands_at(s, p, body_text(t)) && closed_off(s, p + body_text(t).len()) implies #[trigger] reads(
        s,
        p,
        t,
    ) by {
        law_int_text_is_read(v, s, p);
        lemma_int_begins(v, s, p);
        lemma_skip_none(s, p);
    }
    if body_text(t).len() == 0 {
        let s = Seq::<u8>::empty().push(0x30u8);
        assert(s.subrange(0, 0) =~= v.bytes());
        lemma_int_begins(v, s, 0);
    }
}

} // verus!

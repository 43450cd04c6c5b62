//! The lexemes of the human-readable encoding: whitespace and numbers.
use crate::human::de::{agree, fail, failure, DecodeError, Lexed};
use crate::parser_helper::{spec_is_digit, spec_is_ws, Error};
use crate::text::digit_value;
use crate::utf8::is_utf8;
use vstd::prelude::*;
use vstd::utf8::valid_utf8;

verus! {

/// The byte at `pos`, or nothing past the end.
pub open spec fn at(s: Seq<u8>, pos: int) -> Option<u8> {
    if 0 <= pos < s.len() {
        Some(s[pos])
    } else {
        None
    }
}

/// The offset after the comment whose text begins at `pos`: after the next newline, or the
/// end of the input.
pub open spec fn comment_end(s: Seq<u8>, pos: int) -> int
    decreases s.len() - pos,
{
    if 0 <= pos < s.len() {
        if s[pos] == 0x0a {
            pos + 1
        } else {
            comment_end(s, pos + 1)
        }
    } else {
        pos
    }
}

/// A comment ends after its start and within the input.
pub proof fn lemma_comment_end(s: Seq<u8>, pos: int)
    requires
        0 <= pos <= s.len(),
    ensures
        pos <= comment_end(s, pos) <= s.len(),
    decreases s.len() - pos,
{
    if pos < s.len() && s[pos] != 0x0a {
        lemma_comment_end(s, pos + 1);
    }
}

/// The offset after the whitespace at `pos`: spaces, tabs, carriage returns, newlines, and
/// comments, each from a `#` to the next newline or the end of the input. A comment that is
/// not UTF-8 is refused at its `#`.
pub open spec fn skip_spaces(s: Seq<u8>, pos: int) -> Lexed<()>
    decreases s.len() - pos,
    via skip_spaces_decreases
{
    if 0 <= pos < s.len() {
        if spec_is_ws(s[pos]) {
            skip_spaces(s, pos + 1)
        } else if s[pos] == 0x23 {
            let end = comment_end(s, pos + 1);
            if valid_utf8(s.subrange(pos, end)) {
                skip_spaces(s, end)
            } else {
                Err((pos, DecodeError::CommentUtf8))
            }
        } else {
            Ok(((), pos))
        }
    } else {
        Ok(((), pos))
    }
}

#[via_fn]
proof fn skip_spaces_decreases(s: Seq<u8>, pos: int) {
    if 0 <= pos < s.len() {
        lemma_comment_end(s, pos + 1);
    }
}

/// Whitespace ends at or after its start and within the input.
pub proof fn lemma_skip_spaces(s: Seq<u8>, pos: int)
    requires
        0 <= pos <= s.len(),
    ensures
        match skip_spaces(s, pos) {
            Ok((_, end)) => pos <= end <= s.len(),
            Err((at, _)) => pos <= at < s.len(),
        },
    decreases s.len() - pos,
{
    if pos < s.len() {
        if spec_is_ws(s[pos]) {
            lemma_skip_spaces(s, pos + 1);
        } else if s[pos] == 0x23 {
            lemma_comment_end(s, pos + 1);
            let end = comment_end(s, pos + 1);
            if valid_utf8(s.subrange(pos, end)) {
                lemma_skip_spaces(s, end);
            }
        }
    }
}

/// Skips the whitespace at `pos`.
pub fn read_spaces(input: &[u8], pos: usize) -> (r: Result<((), usize), Error<DecodeError>>)
    requires
        pos <= input@.len(),
    ensures
        agree(r, skip_spaces(input@, pos as int)),
        r.is_ok() ==> pos <= r.unwrap().1 <= input@.len(),
{
    let len = input.len();
    let mut p: usize = pos;
    loop
        invariant
            pos <= p <= len,
            len == input@.len(),
            skip_spaces(input@, pos as int) == skip_spaces(input@, p as int),
        decreases len - p,
    {
        if p >= len {
            return Ok(((), p));
        }
        let b = input[p];
        if b == 0x09 || b == 0x0a || b == 0x0d || b == 0x20 {
            p = p + 1;
        } else if b == 0x23 {
            let start = p;
            let mut q: usize = p + 1;
            while q < len && input[q] != 0x0a
                invariant
                    start < q <= len,
                    len == input@.len(),
                    comment_end(input@, start + 1) == comment_end(input@, q as int),
                decreases len - q,
            {
                q = q + 1;
            }
            if q < len {
                q = q + 1;
            }
            if !is_utf8(vstd::slice::slice_subrange(input, start, q)) {
                return fail(start, DecodeError::CommentUtf8);
            }
            p = q;
        } else {
            return Ok(((), p));
        }
    }
}

/// Whether the byte is a digit of the base: 2, 10 or 16.
pub open spec fn is_base_digit(b: u8, base: nat) -> bool {
    if base == 2 {
        b == 0x30 || b == 0x31
    } else if base == 10 {
        0x30 <= b <= 0x39
    } else {
        0x30 <= b <= 0x39 || 0x41 <= b <= 0x46 || 0x61 <= b <= 0x66
    }
}

/// The end of the run of digits of the base and underscores that begins at `pos`.
pub open spec fn run_end(s: Seq<u8>, pos: int, base: nat) -> int
    decreases s.len() - pos,
{
    if 0 <= pos < s.len() && (s[pos] == 0x5F || is_base_digit(s[pos], base)) {
        run_end(s, pos + 1, base)
    } else {
        pos
    }
}

/// The number that the digits from `from` up to `to` stand for; underscores do not count.
pub open spec fn run_value(s: Seq<u8>, from: int, to: int, base: nat) -> nat
    decreases to - from,
{
    if to <= from {
        0
    } else if s[to - 1] == 0x5F {
        run_value(s, from, to - 1, base)
    } else {
        run_value(s, from, to - 1, base) * base + digit_value(s[to - 1])
    }
}

/// The bytes from `from` up to `to` without the underscores.
pub open spec fn stripped(s: Seq<u8>, from: int, to: int) -> Seq<u8>
    decreases to - from,
{
    if to <= from {
        Seq::empty()
    } else if s[to - 1] == 0x5F {
        stripped(s, from, to - 1)
    } else {
        stripped(s, from, to - 1).push(s[to - 1])
    }
}

/// A run ends at or after its start and within the input.
pub proof fn lemma_run_end(s: Seq<u8>, pos: int, base: nat)
    requires
        0 <= pos <= s.len(),
    ensures
        pos <= run_end(s, pos, base) <= s.len(),
        0 <= pos < s.len() && is_base_digit(s[pos], base) ==> pos < run_end(s, pos, base),
    decreases s.len() - pos,
{
    if pos < s.len() && (s[pos] == 0x5F || is_base_digit(s[pos], base)) {
        lemma_run_end(s, pos + 1, base);
    }
}

/// Whether the byte is a digit of the base.
pub fn base_digit(b: u8, base: u64) -> (r: bool)
    ensures
        r == is_base_digit(b, base as nat),
{
    if base == 2 {
        b == 0x30 || b == 0x31
    } else if base == 10 {
        0x30 <= b && b <= 0x39
    } else {
        (0x30 <= b && b <= 0x39) || (0x41 <= b && b <= 0x46) || (0x61 <= b && b <= 0x66)
    }
}

/// The number that an ASCII digit stands for.
pub fn value_of_digit(b: u8) -> (d: u64)
    ensures
        d == digit_value(b),
        d < 16,
{
    if 0x30 <= b && b <= 0x39 {
        (b - 0x30) as u64
    } else if 0x41 <= b && b <= 0x46 {
        (b - 0x37) as u64
    } else if 0x61 <= b && b <= 0x66 {
        (b - 0x57) as u64
    } else {
        0
    }
}

/// Reads the run of digits and underscores at `pos`: its end, and the number it stands for
/// unless that is above `limit`.
pub fn read_run(input: &[u8], pos: usize, base: u64, limit: u64) -> (r: (usize, Option<u64>))
    requires
        pos <= input@.len(),
        base == 2 || base == 10 || base == 16,
    ensures
        r.0 == run_end(input@, pos as int, base as nat),
        pos <= r.0 <= input@.len(),
        match r.1 {
            Some(v) => v == run_value(input@, pos as int, r.0 as int, base as nat) && v <= limit,
            None => run_value(input@, pos as int, r.0 as int, base as nat) > limit,
        },
{
    let len = input.len();
    let mut p: usize = pos;
    let mut acc: u64 = 0;
    let mut over = false;
    while p < len && (input[p] == 0x5F || base_digit(input[p], base))
        invariant
            pos <= p <= len,
            len == input@.len(),
            base == 2 || base == 10 || base == 16,
            run_end(input@, pos as int, base as nat) == run_end(input@, p as int, base as nat),
            !over ==> acc == run_value(input@, pos as int, p as int, base as nat) && acc <= limit,
            over ==> run_value(input@, pos as int, p as int, base as nat) > limit,
        decreases len - p,
    {
        let b = input[p];
        if b != 0x5F {
            let d = value_of_digit(b);
            let ghost before = run_value(input@, pos as int, p as int, base as nat);
            assert(run_value(input@, pos as int, p + 1, base as nat) == before * base + d);
            if !over {
                assert(acc * base <= 0xFFFF_FFFF_FFFF_FFFF * 16) by (nonlinear_arith)
                    requires
                        acc <= 0xFFFF_FFFF_FFFF_FFFF,
                        base <= 16,
                ;
                let wide: u128 = (acc as u128) * (base as u128) + (d as u128);
                if wide > limit as u128 {
                    over = true;
                } else {
                    acc = wide as u64;
                }
            } else {
                assert(before * base + d >= before) by (nonlinear_arith)
                    requires
                        base >= 1,
                        before >= 0,
                        d >= 0,
                ;
            }
        }
        p = p + 1;
    }
    if over {
        (p, None)
    } else {
        (p, Some(acc))
    }
}

/// Whether the two bytes at `pos` are `0` and the given letter, in either case.
pub open spec fn has_prefix(s: Seq<u8>, pos: int, lower: u8) -> bool {
    at(s, pos) == Some(0x30u8) && (at(s, pos + 1) == Some(lower) || at(s, pos + 1) == Some(
        (lower - 0x20) as u8,
    ))
}

/// The int whose digits begin at `pos`, after a prefix: at least one digit of the base, then
/// digits and underscores. An int above 2^63 - 1 is refused at its end.
pub open spec fn lex_digits(s: Seq<u8>, pos: int, base: nat) -> Lexed<int> {
    if !(0 <= pos < s.len()) {
        Err((pos, DecodeError::Eoi))
    } else if !is_base_digit(s[pos], base) {
        Err((pos, DecodeError::IntDigits))
    } else {
        let end = run_end(s, pos, base);
        let m = run_value(s, pos, end, base);
        if m > 0x7FFF_FFFF_FFFF_FFFF {
            Err((end, DecodeError::OutOfBoundsI64))
        } else {
            Ok((m as int, end))
        }
    }
}

/// The decimal int whose digits begin at `pos`, after a sign if `signed`: at least one
/// digit, then digits and underscores. An int outside of 64 bits is refused at its end.
pub open spec fn lex_decimal(s: Seq<u8>, pos: int, negative: bool, signed: bool) -> Lexed<int> {
    if !(0 <= pos < s.len()) {
        Err((pos, DecodeError::Eoi))
    } else if !spec_is_digit(s[pos]) {
        Err(
            (
                pos,
                if signed {
                    DecodeError::IntDigits
                } else {
                    DecodeError::ExpectedInt
                },
            ),
        )
    } else {
        let end = run_end(s, pos, 10);
        let m = run_value(s, pos, end, 10);
        if negative {
            if m > 0x8000_0000_0000_0000 {
                Err((end, DecodeError::OutOfBoundsI64))
            } else {
                Ok((-(m as int), end))
            }
        } else if m > 0x7FFF_FFFF_FFFF_FFFF {
            Err((end, DecodeError::OutOfBoundsI64))
        } else {
            Ok((m as int, end))
        }
    }
}

/// The int literal at `pos`: an optional sign and decimal digits; or, without a sign, `0x`
/// and hexadecimal digits or `0b` and binary digits, the letter in either case. Underscores
/// may stand after the first digit and count for nothing.
pub open spec fn lex_int(s: Seq<u8>, pos: int) -> Lexed<int> {
    let negative = at(s, pos) == Some(0x2Du8);
    let signed = negative || at(s, pos) == Some(0x2Bu8);
    if signed {
        lex_decimal(s, pos + 1, negative, true)
    } else if has_prefix(s, pos, 0x78) {
        lex_digits(s, pos + 2, 16)
    } else if has_prefix(s, pos, 0x62) {
        lex_digits(s, pos + 2, 2)
    } else {
        lex_decimal(s, pos, false, false)
    }
}

/// A float as it is written.
pub enum FloatText {
    NaN,
    Inf,
    NegInf,
    /// A decimal literal without its underscores: an optional sign, digits, a point, digits,
    /// and optionally `e` or `E`, an optional sign and digits.
    Decimal(Seq<u8>),
}

/// A float as it is written.
#[derive(Debug, PartialEq, Eq, Clone)]
pub enum FloatLiteral {
    NaN,
    Inf,
    NegInf,
    /// A decimal literal without its underscores: an optional sign, digits, a point, digits,
    /// and optionally `e` or `E`, an optional sign and digits. Which float it stands for is
    /// for a parser of decimal floats to say.
    Decimal(Vec<u8>),
}

impl View for FloatLiteral {
    type V = FloatText;

    open spec fn view(&self) -> FloatText {
        match self {
            FloatLiteral::NaN => FloatText::NaN,
            FloatLiteral::Inf => FloatText::Inf,
            FloatLiteral::NegInf => FloatText::NegInf,
            FloatLiteral::Decimal(t) => FloatText::Decimal(t@),
        }
    }
}

/// Whether the three bytes at `pos` are the given ones.
pub open spec fn has_word(s: Seq<u8>, pos: int, a: u8, b: u8, c: u8) -> bool {
    at(s, pos) == Some(a) && at(s, pos + 1) == Some(b) && at(s, pos + 2) == Some(c)
}

/// The rest of a decimal float whose literal begins at `start` and whose digits before the
/// point end at `point`: the point, at least one digit, then digits and underscores, and
/// optionally an exponent: `e` or `E`, an optional sign, at least one digit, then digits and
/// underscores.
pub open spec fn lex_fraction(s: Seq<u8>, start: int, point: int) -> Lexed<FloatText> {
    if !(0 <= point < s.len()) {
        Err((point, DecodeError::Eoi))
    } else if s[point] != 0x2E {
        Err((point, DecodeError::FloatPoint))
    } else if at(s, point + 1).is_none() {
        Err((point + 1, DecodeError::Eoi))
    } else if !spec_is_digit(s[point + 1]) {
        Err((point + 1, DecodeError::FloatTrailingDigits))
    } else {
        let e2 = run_end(s, point + 1, 10);
        if at(s, e2) == Some(0x45u8) || at(s, e2) == Some(0x65u8) {
            let x = if at(s, e2 + 1) == Some(0x2Du8) || at(s, e2 + 1) == Some(0x2Bu8) {
                e2 + 2
            } else {
                e2 + 1
            };
            if at(s, x).is_none() {
                Err((x, DecodeError::Eoi))
            } else if !spec_is_digit(s[x]) {
                Err((x, DecodeError::FloatExponentDigit))
            } else {
                let e3 = run_end(s, x, 10);
                Ok((FloatText::Decimal(stripped(s, start, e3)), e3))
            }
        } else {
            Ok((FloatText::Decimal(stripped(s, start, e2)), e2))
        }
    }
}

/// `Inf` or `NaN` at `pos`, after a sign if `signed`: `Inf` with any sign or none, `NaN`
/// without a sign.
pub open spec fn lex_named(s: Seq<u8>, pos: int, negative: bool, signed: bool) -> Lexed<
    FloatText,
> {
    if has_word(s, pos, 0x49, 0x6E, 0x66) {
        Ok(
            (
                if negative {
                    FloatText::NegInf
                } else {
                    FloatText::Inf
                },
                pos + 3,
            ),
        )
    } else if !signed && has_word(s, pos, 0x4E, 0x61, 0x4E) {
        Ok((FloatText::NaN, pos + 3))
    } else {
        Err((pos, DecodeError::ExpectedFloat))
    }
}

/// The float literal at `pos`: `Inf`, `-Inf`, `+Inf` or `NaN`; or an optional sign, at least
/// one digit, then digits and underscores, and the rest as `lex_fraction` says.
pub open spec fn lex_float(s: Seq<u8>, pos: int) -> Lexed<FloatText> {
    let negative = at(s, pos) == Some(0x2Du8);
    let signed = negative || at(s, pos) == Some(0x2Bu8);
    let p = if signed {
        pos + 1
    } else {
        pos
    };
    if at(s, p).is_none() {
        Err((p, DecodeError::Eoi))
    } else if s[p] == 0x49 || s[p] == 0x4E {
        lex_named(s, p, negative, signed)
    } else if !spec_is_digit(s[p]) {
        Err(
            (
                p,
                if signed {
                    DecodeError::FloatLeadingDigits
                } else {
                    DecodeError::ExpectedFloat
                },
            ),
        )
    } else {
        lex_fraction(s, pos, run_end(s, p, 10))
    }
}

/// A number as it is written: a float or an int.
pub enum NumberText {
    F(FloatText),
    I(i64),
}

/// A number as it is written: a float or an int.
#[derive(Debug, PartialEq, Eq, Clone)]
pub enum Number {
    F(FloatLiteral),
    I(i64),
}

impl View for Number {
    type V = NumberText;

    open spec fn view(&self) -> NumberText {
        match self {
            Number::F(f) => NumberText::F(f@),
            Number::I(n) => NumberText::I(*n),
        }
    }
}

/// The number literal at `pos`: a float literal or an int literal. After a decimal run of
/// digits a point makes the literal a float.
pub open spec fn lex_number(s: Seq<u8>, pos: int) -> Lexed<NumberText> {
    let negative = at(s, pos) == Some(0x2Du8);
    let signed = negative || at(s, pos) == Some(0x2Bu8);
    let p = if signed {
        pos + 1
    } else {
        pos
    };
    if at(s, p).is_none() {
        Err((p, DecodeError::Eoi))
    } else if s[p] == 0x49 || s[p] == 0x4E {
        match lex_named(s, p, negative, signed) {
            Ok((f, end)) => Ok((NumberText::F(f), end)),
            Err(e) => Err(e),
        }
    } else if spec_is_digit(s[p]) && !(!signed && (has_prefix(s, pos, 0x78) || has_prefix(
        s,
        pos,
        0x62,
    ))) && at(s, run_end(s, p, 10)) == Some(0x2Eu8) {
        match lex_fraction(s, pos, run_end(s, p, 10)) {
            Ok((f, end)) => Ok((NumberText::F(f), end)),
            Err(e) => Err(e),
        }
    } else {
        match lex_int(s, pos) {
            Ok((n, end)) => Ok((NumberText::I(n as i64), end)),
            Err(e) => Err(e),
        }
    }
}

/// The byte at `pos`, or nothing past the end.
pub fn byte_at(input: &[u8], pos: usize) -> (r: Option<u8>)
    ensures
        r == at(input@, pos as int),
{
    if pos < input.len() {
        Some(input[pos])
    } else {
        None
    }
}

/// Whether the byte at `pos` is the given one.
pub fn is_at(input: &[u8], pos: usize, b: u8) -> (r: bool)
    ensures
        r == (at(input@, pos as int) == Some(b)),
{
    pos < input.len() && input[pos] == b
}

fn prefix_at(input: &[u8], pos: usize, lower: u8) -> (r: bool)
    requires
        lower == 0x78 || lower == 0x62,
        pos <= input@.len(),
    ensures
        r == has_prefix(input@, pos as int, lower),
{
    let len = input.len();
    if len - pos < 2 {
        return false;
    }
    input[pos] == 0x30 && (input[pos + 1] == lower || input[pos + 1] == lower - 0x20)
}

fn read_digits(input: &[u8], pos: usize, base: u64) -> (r: Result<
    (i64, usize),
    Error<DecodeError>,
>)
    requires
        pos <= input@.len(),
        base == 2 || base == 16,
    ensures
        match (r, lex_digits(input@, pos as int, base as nat)) {
            (Ok((v, end)), Ok((n, e))) => v == n && end == e,
            (Err(x), Err((at, why))) => x == failure(at, why),
            _ => false,
        },
        r.is_ok() ==> pos < r.unwrap().1 <= input@.len(),
{
    if pos >= input.len() {
        return fail(pos, DecodeError::Eoi);
    }
    if !base_digit(input[pos], base) {
        return fail(pos, DecodeError::IntDigits);
    }
    proof {
        lemma_run_end(input@, pos as int, base as nat);
    }
    let (end, value) = read_run(input, pos, base, 0x7FFF_FFFF_FFFF_FFFF);
    match value {
        None => fail(end, DecodeError::OutOfBoundsI64),
        Some(m) => Ok((m as i64, end)),
    }
}

fn read_decimal(input: &[u8], pos: usize, negative: bool, signed: bool) -> (r: Result<
    (i64, usize),
    Error<DecodeError>,
>)
    requires
        pos <= input@.len(),
    ensures
        match (r, lex_decimal(input@, pos as int, negative, signed)) {
            (Ok((v, end)), Ok((n, e))) => v == n && end == e,
            (Err(x), Err((at, why))) => x == failure(at, why),
            _ => false,
        },
        r.is_ok() ==> pos < r.unwrap().1 <= input@.len(),
{
    if pos >= input.len() {
        return fail(pos, DecodeError::Eoi);
    }
    if !(0x30 <= input[pos] && input[pos] <= 0x39) {
        return fail(
            pos,
            if signed {
                DecodeError::IntDigits
            } else {
                DecodeError::ExpectedInt
            },
        );
    }
    proof {
        lemma_run_end(input@, pos as int, 10);
    }
    if negative {
        let (end, value) = read_run(input, pos, 10, 0x8000_0000_0000_0000);
        match value {
            None => fail(end, DecodeError::OutOfBoundsI64),
            Some(m) => {
                if m == 0x8000_0000_0000_0000 {
                    Ok((i64::MIN, end))
                } else {
                    Ok((-(m as i64), end))
                }
            },
        }
    } else {
        let (end, value) = read_run(input, pos, 10, 0x7FFF_FFFF_FFFF_FFFF);
        match value {
            None => fail(end, DecodeError::OutOfBoundsI64),
            Some(m) => Ok((m as i64, end)),
        }
    }
}

/// Reads the int literal at `pos` (see [`lex_int`]).
pub fn read_int(input: &[u8], pos: usize) -> (r: Result<(i64, usize), Error<DecodeError>>)
    requires
        pos <= input@.len(),
    ensures
        match (r, lex_int(input@, pos as int)) {
            (Ok((v, end)), Ok((n, e))) => v == n && end == e,
            (Err(x), Err((at, why))) => x == failure(at, why),
            _ => false,
        },
        r.is_ok() ==> pos < r.unwrap().1 <= input@.len(),
{
    let len = input.len();
    let negative = is_at(input, pos, 0x2D);
    let signed = negative || is_at(input, pos, 0x2B);
    if signed {
        read_decimal(input, pos + 1, negative, true)
    } else if prefix_at(input, pos, 0x78) {
        read_digits(input, pos + 2, 16)
    } else if prefix_at(input, pos, 0x62) {
        read_digits(input, pos + 2, 2)
    } else {
        read_decimal(input, pos, false, false)
    }
}

/// The bytes from `from` up to `to` without the underscores.
pub fn strip(input: &[u8], from: usize, to: usize) -> (out: Vec<u8>)
    requires
        from <= to <= input@.len(),
    ensures
        out@ == stripped(input@, from as int, to as int),
{
    let mut out: Vec<u8> = Vec::new();
    let mut i: usize = from;
    while i < to
        invariant
            from <= i <= to <= input@.len(),
            out@ == stripped(input@, from as int, i as int),
        decreases to - i,
    {
        if input[i] != 0x5F {
            out.push(input[i]);
        }
        i = i + 1;
    }
    out
}

fn word_at(input: &[u8], pos: usize, a: u8, b: u8, c: u8) -> (r: bool)
    requires
        pos <= input@.len(),
    ensures
        r == has_word(input@, pos as int, a, b, c),
{
    let len = input.len();
    if len - pos < 3 {
        return false;
    }
    input[pos] == a && input[pos + 1] == b && input[pos + 2] == c
}

fn read_named(input: &[u8], pos: usize, negative: bool, signed: bool) -> (r: Result<
    (FloatLiteral, usize),
    Error<DecodeError>,
>)
    requires
        pos <= input@.len(),
    ensures
        match (r, lex_named(input@, pos as int, negative, signed)) {
            (Ok((v, end)), Ok((f, e))) => v@ == f && end == e,
            (Err(x), Err((at, why))) => x == failure(at, why),
            _ => false,
        },
        r.is_ok() ==> pos < r.unwrap().1 <= input@.len(),
{
    let len = input.len();
    if word_at(input, pos, 0x49, 0x6E, 0x66) {
        Ok(
            (
                if negative {
                    FloatLiteral::NegInf
                } else {
                    FloatLiteral::Inf
                },
                pos + 3,
            ),
        )
    } else if !signed && word_at(input, pos, 0x4E, 0x61, 0x4E) {
        Ok((FloatLiteral::NaN, pos + 3))
    } else {
        fail(pos, DecodeError::ExpectedFloat)
    }
}

fn read_fraction(input: &[u8], start: usize, point: usize) -> (r: Result<
    (FloatLiteral, usize),
    Error<DecodeError>,
>)
    requires
        start <= point <= input@.len(),
    ensures
        match (r, lex_fraction(input@, start as int, point as int)) {
            (Ok((v, end)), Ok((f, e))) => v@ == f && end == e,
            (Err(x), Err((at, why))) => x == failure(at, why),
            _ => false,
        },
        r.is_ok() ==> point < r.unwrap().1 <= input@.len(),
{
    let len = input.len();
    if point >= len {
        return fail(point, DecodeError::Eoi);
    }
    if input[point] != 0x2E {
        return fail(point, DecodeError::FloatPoint);
    }
    if point + 1 >= len {
        return fail(point + 1, DecodeError::Eoi);
    }
    if !(0x30 <= input[point + 1] && input[point + 1] <= 0x39) {
        return fail(point + 1, DecodeError::FloatTrailingDigits);
    }
    let (e2, _) = read_run(input, point + 1, 10, 0);
    if is_at(input, e2, 0x45) || is_at(input, e2, 0x65) {
        let x = if is_at(input, e2 + 1, 0x2D) || is_at(input, e2 + 1, 0x2B) {
            e2 + 2
        } else {
            e2 + 1
        };
        if x >= len {
            return fail(x, DecodeError::Eoi);
        }
        if !(0x30 <= input[x] && input[x] <= 0x39) {
            return fail(x, DecodeError::FloatExponentDigit);
        }
        let (e3, _) = read_run(input, x, 10, 0);
        Ok((FloatLiteral::Decimal(strip(input, start, e3)), e3))
    } else {
        Ok((FloatLiteral::Decimal(strip(input, start, e2)), e2))
    }
}

/// Reads the float literal at `pos` (see [`lex_float`]).
pub fn read_float(input: &[u8], pos: usize) -> (r: Result<
    (FloatLiteral, usize),
    Error<DecodeError>,
>)
    requires
        pos <= input@.len(),
    ensures
        match (r, lex_float(input@, pos as int)) {
            (Ok((v, end)), Ok((f, e))) => v@ == f && end == e,
            (Err(x), Err((at, why))) => x == failure(at, why),
            _ => false,
        },
        r.is_ok() ==> pos < r.unwrap().1 <= input@.len(),
{
    let len = input.len();
    let negative = is_at(input, pos, 0x2D);
    let signed = negative || is_at(input, pos, 0x2B);
    let p = if signed {
        pos + 1
    } else {
        pos
    };
    if p >= len {
        return fail(p, DecodeError::Eoi);
    }
    if input[p] == 0x49 || input[p] == 0x4E {
        return read_named(input, p, negative, signed);
    }
    if !(0x30 <= input[p] && input[p] <= 0x39) {
        return fail(
            p,
            if signed {
                DecodeError::FloatLeadingDigits
            } else {
                DecodeError::ExpectedFloat
            },
        );
    }
    let (e1, _) = read_run(input, p, 10, 0);
    read_fraction(input, pos, e1)
}

/// Reads the number literal at `pos` (see [`lex_number`]).
pub fn read_number(input: &[u8], pos: usize) -> (r: Result<(Number, usize), Error<DecodeError>>)
    requires
        pos <= input@.len(),
    ensures
        match (r, lex_number(input@, pos as int)) {
            (Ok((v, end)), Ok((f, e))) => v@ == f && end == e,
            (Err(x), Err((at, why))) => x == failure(at, why),
            _ => false,
        },
        r.is_ok() ==> pos < r.unwrap().1 <= input@.len(),
{
    let len = input.len();
    let negative = is_at(input, pos, 0x2D);
    let signed = negative || is_at(input, pos, 0x2B);
    let p = if signed {
        pos + 1
    } else {
        pos
    };
    if p >= len {
        return fail(p, DecodeError::Eoi);
    }
    if input[p] == 0x49 || input[p] == 0x4E {
        return match read_named(input, p, negative, signed) {
            Ok((f, end)) => Ok((Number::F(f), end)),
            Err(e) => Err(e),
        };
    }
    if (0x30 <= input[p] && input[p] <= 0x39) && !(!signed && (prefix_at(input, pos, 0x78)
        || prefix_at(input, pos, 0x62))) {
        let (e1, _) = read_run(input, p, 10, 0);
        if is_at(input, e1, 0x2E) {
            return match read_fraction(input, pos, e1) {
                Ok((f, end)) => Ok((Number::F(f), end)),
                Err(e) => Err(e),
            };
        }
    }
    match read_int(input, pos) {
        Ok((n, end)) => Ok((Number::I(n), end)),
        Err(e) => Err(e),
    }
}

} // verus!

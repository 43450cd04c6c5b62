//! The lexemes of the human-readable encoding: strings and byte strings.
use crate::human::de::{agree, fail, failure, DecodeError, Lexed};
use crate::human::lex::{
    at, is_base_digit, lemma_run_end, lemma_skip_spaces, lex_int, read_int, read_run,
    read_spaces, run_end, run_value, skip_spaces, strip, stripped, value_of_digit,
};
use crate::parser_helper::Error;
use crate::text::digit_value;
use crate::utf8::{is_scalar, is_utf8};
use vstd::prelude::*;
use vstd::utf8::valid_utf8;

verus! {

/// The UTF-8 encoding of a Unicode scalar value.
pub open spec fn scalar_bytes(v: nat) -> Seq<u8> {
    if v < 0x80 {
        seq![v as u8]
    } else if v < 0x800 {
        seq![(0xC0 + v / 0x40) as u8, (0x80 + v % 0x40) as u8]
    } else if v < 0x1_0000 {
        seq![(0xE0 + v / 0x1000) as u8, (0x80 + (v / 0x40) % 0x40) as u8, (0x80 + v % 0x40) as u8]
    } else {
        seq![
            (0xF0 + v / 0x4_0000) as u8,
            (0x80 + (v / 0x1000) % 0x40) as u8,
            (0x80 + (v / 0x40) % 0x40) as u8,
            (0x80 + v % 0x40) as u8,
        ]
    }
}

/// `scalar_bytes` gives the UTF-8 encoding of every Unicode scalar value, as the standard
/// library's encoding of chars is stated.
pub proof fn lemma_scalar_bytes(v: u32)
    requires
        is_scalar(v),
    ensures
        scalar_bytes(v as nat) == vstd::utf8::encode_scalar(v),
{
    let ours = scalar_bytes(v as nat);
    let theirs = vstd::utf8::encode_scalar(v);
    if v < 0x80 {
        assert(v as u8 == (v & 0x7F) as u8) by (bit_vector)
            requires
                v < 0x80,
        ;
        assert(ours =~= theirs);
    } else if v < 0x800 {
        assert((0xC0 + v / 0x40) as u8 == 0xC0u8 | ((v >> 6) & 0x1F) as u8) by (bit_vector)
            requires
                0x80 <= v < 0x800,
        ;
        assert((0x80 + v % 0x40) as u8 == 0x80u8 | (v & 0x3F) as u8) by (bit_vector);
        assert(ours =~= theirs);
    } else if v < 0x1_0000 {
        assert((0xE0 + v / 0x1000) as u8 == 0xE0u8 | ((v >> 12) & 0x0F) as u8) by (bit_vector)
            requires
                0x800 <= v < 0x1_0000,
        ;
        assert((0x80 + (v / 0x40) % 0x40) as u8 == 0x80u8 | ((v >> 6) & 0x3F) as u8)
            by (bit_vector);
        assert((0x80 + v % 0x40) as u8 == 0x80u8 | (v & 0x3F) as u8) by (bit_vector);
        assert(ours =~= theirs);
    } else {
        assert((0xF0 + v / 0x4_0000) as u8 == 0xF0u8 | ((v >> 18) & 0x7) as u8) by (bit_vector)
            requires
                0x1_0000 <= v <= 0x10FFFF,
        ;
        assert((0x80 + (v / 0x1000) % 0x40) as u8 == 0x80u8 | ((v >> 12) & 0x3F) as u8)
            by (bit_vector);
        assert((0x80 + (v / 0x40) % 0x40) as u8 == 0x80u8 | ((v >> 6) & 0x3F) as u8)
            by (bit_vector);
        assert((0x80 + v % 0x40) as u8 == 0x80u8 | (v & 0x3F) as u8) by (bit_vector);
        assert(ours =~= theirs);
    }
}

/// `scalar_bytes` of a char is the UTF-8 encoding of the string of that char.
pub proof fn lemma_char_bytes(c: char)
    ensures
        scalar_bytes(c as u32 as nat) == vstd::utf8::encode_utf8(seq![c]),
{
    vstd::utf8::char_is_scalar(c);
    lemma_scalar_bytes(c as u32);
    let one = seq![c];
    assert(one.drop_first() =~= Seq::<char>::empty());
    assert(vstd::utf8::encode_utf8(one) == vstd::utf8::encode_scalar(c as u32)
        + vstd::utf8::encode_utf8(one.drop_first()));
    assert(vstd::utf8::encode_utf8(Seq::<char>::empty()) =~= Seq::<u8>::empty());
    assert(vstd::utf8::encode_scalar(c as u32) + Seq::<u8>::empty()
        =~= vstd::utf8::encode_scalar(c as u32));
}

/// Appends the UTF-8 encoding of a Unicode scalar value.
pub fn push_scalar(out: &mut Vec<u8>, v: u32)
    requires
        v <= 0x10FFFF,
    ensures
        final(out)@ == old(out)@ + scalar_bytes(v as nat),
{
    if v < 0x80 {
        out.push(v as u8);
    } else if v < 0x800 {
        out.push((0xC0 + v / 0x40) as u8);
        out.push((0x80 + v % 0x40) as u8);
    } else if v < 0x1_0000 {
        out.push((0xE0 + v / 0x1000) as u8);
        out.push((0x80 + (v / 0x40) % 0x40) as u8);
        out.push((0x80 + v % 0x40) as u8);
    } else {
        out.push((0xF0 + v / 0x4_0000) as u8);
        out.push((0x80 + (v / 0x1000) % 0x40) as u8);
        out.push((0x80 + (v / 0x40) % 0x40) as u8);
        out.push((0x80 + v % 0x40) as u8);
    }
    assert(out@ =~= old(out)@ + scalar_bytes(v as nat));
}

/// The number of bytes of the UTF-8 encoding that begins with the byte; 0 if none does.
pub open spec fn scalar_width(b: u8) -> nat {
    if b < 0x80 {
        1
    } else if 0xC0 <= b < 0xE0 {
        2
    } else if 0xE0 <= b < 0xF0 {
        3
    } else if 0xF0 <= b < 0xF8 {
        4
    } else {
        0
    }
}

/// The end of the run of hexadecimal digits that begins at `pos`.
pub open spec fn hex_end(s: Seq<u8>, pos: int) -> int
    decreases s.len() - pos,
{
    if 0 <= pos < s.len() && is_base_digit(s[pos], 16) {
        hex_end(s, pos + 1)
    } else {
        pos
    }
}

/// A run of hexadecimal digits ends at or after its start and within the input.
pub proof fn lemma_hex_end(s: Seq<u8>, pos: int)
    requires
        0 <= pos <= s.len(),
    ensures
        pos <= hex_end(s, pos) <= s.len(),
    decreases s.len() - pos,
{
    if pos < s.len() && is_base_digit(s[pos], 16) {
        lemma_hex_end(s, pos + 1);
    }
}

/// The bytes that an escape stands for whose backslash is followed by `c`, for the escapes
/// of one byte: `\"`, `\0`, `\\`, `\n`, `\r` and `\t`.
pub open spec fn simple_escape(c: u8) -> Option<u8> {
    if c == 0x22 {
        Some(0x22u8)
    } else if c == 0x30 {
        Some(0x00u8)
    } else if c == 0x5C {
        Some(0x5Cu8)
    } else if c == 0x6E {
        Some(0x0Au8)
    } else if c == 0x72 {
        Some(0x0Du8)
    } else if c == 0x74 {
        Some(0x09u8)
    } else {
        None
    }
}

/// `acc` and the UTF-8 bytes of the rest of an escaping string, from `pos` up to its closing
/// quote. A backslash begins an escape: of one byte (see `simple_escape`), or `\{`, one to
/// six hexadecimal digits of a Unicode scalar value, and `}`. Any other char stands for
/// itself, and must be UTF-8.
pub open spec fn lex_escaped(s: Seq<u8>, pos: int, acc: Seq<u8>) -> Lexed<Seq<u8>>
    decreases s.len() - pos,
    via lex_escaped_decreases
{
    if !(0 <= pos < s.len()) {
        Err((pos, DecodeError::Eoi))
    } else if s[pos] == 0x22 {
        Ok((acc, pos + 1))
    } else if s[pos] == 0x5C {
        if at(s, pos + 1).is_none() {
            Err((pos + 1, DecodeError::Eoi))
        } else if simple_escape(s[pos + 1]).is_some() {
            lex_escaped(s, pos + 2, acc.push(simple_escape(s[pos + 1]).unwrap()))
        } else if s[pos + 1] == 0x7B {
            let d = hex_end(s, pos + 2);
            let v = run_value(s, pos + 2, d, 16);
            if d - (pos + 2) < 1 || d - (pos + 2) > 6 {
                Err((d, DecodeError::UnicodeDigits))
            } else if !is_scalar(v as u32) {
                Err((d, DecodeError::UnicodeScalar))
            } else if at(s, d).is_none() {
                Err((d, DecodeError::Eoi))
            } else if s[d] != 0x7D {
                Err((d, DecodeError::UnicodeClosing))
            } else {
                lex_escaped(s, d + 1, acc + scalar_bytes(v))
            }
        } else {
            Err((pos + 2, DecodeError::Utf8StringEscape))
        }
    } else {
        let w = scalar_width(s[pos]);
        if w == 0 {
            Err((pos + 1, DecodeError::Utf8StringUtf8))
        } else if pos + w > s.len() {
            Err((s.len() as int, DecodeError::Eoi))
        } else if !valid_utf8(s.subrange(pos, pos + w)) {
            Err((pos + w, DecodeError::Utf8StringUtf8))
        } else {
            lex_escaped(s, pos + w, acc + s.subrange(pos, pos + w))
        }
    }
}

#[via_fn]
proof fn lex_escaped_decreases(s: Seq<u8>, pos: int, acc: Seq<u8>) {
    if 0 <= pos < s.len() {
        lemma_hex_end(s, pos + 1);
        if pos + 2 <= s.len() {
            lemma_hex_end(s, pos + 2);
        }
    }
}

/// The end of the run of `@` that begins at `pos`.
pub open spec fn ats_end(s: Seq<u8>, pos: int) -> int
    decreases s.len() - pos,
{
    if 0 <= pos < s.len() && s[pos] == 0x40 {
        ats_end(s, pos + 1)
    } else {
        pos
    }
}

/// Whether a raw string of `ats` `@` closes at `q`: a quote there, and `ats` `@` after it.
pub open spec fn closes(s: Seq<u8>, q: int, ats: int) -> bool {
    at(s, q) == Some(0x22u8) && q + ats < s.len() && forall|i: int|
        1 <= i <= ats ==> #[trigger] s[q + i] == 0x40
}

/// The first offset at or after `pos` at which a raw string of `ats` `@` closes, or the end
/// of the input.
pub open spec fn raw_close(s: Seq<u8>, pos: int, ats: int) -> int
    decreases s.len() - pos,
{
    if 0 <= pos < s.len() && !closes(s, pos, ats) {
        raw_close(s, pos + 1, ats)
    } else {
        pos
    }
}

/// The UTF-8 bytes of the string literal at `pos`: between two quotes an escaping string
/// (see `lex_escaped`); or a raw string, `@` up to 255 times, a quote, any UTF-8 up to the
/// next quote that as many `@` follow, and these.
pub open spec fn lex_string(s: Seq<u8>, pos: int) -> Lexed<Seq<u8>> {
    let q = ats_end(s, pos);
    let ats = q - pos;
    if ats > 255 {
        Err((pos, DecodeError::Utf8StringRawAts))
    } else if at(s, q).is_none() {
        Err((q, DecodeError::Eoi))
    } else if s[q] != 0x22 {
        Err((q, DecodeError::ExpectedUtf8String))
    } else if ats == 0 {
        lex_escaped(s, q + 1, Seq::empty())
    } else {
        let c = raw_close(s, q + 1, ats);
        if c >= s.len() {
            Err((s.len() as int, DecodeError::Eoi))
        } else if !valid_utf8(s.subrange(q + 1, c)) {
            Err((c + 1 + ats, DecodeError::Utf8StringUtf8))
        } else {
            Ok((s.subrange(q + 1, c), c + 1 + ats))
        }
    }
}

/// The bytes that pairs of hexadecimal digits stand for.
pub open spec fn hex_bytes(d: Seq<u8>) -> Seq<u8> {
    Seq::new(
        d.len() / 2,
        |i: int| (digit_value(d[2 * i]) * 16 + digit_value(d[2 * i + 1])) as u8,
    )
}

/// The number that the eight binary digits from index `i` on stand for.
pub open spec fn octet(d: Seq<u8>, i: int) -> nat {
    digit_value(d[i]) * 128 + digit_value(d[i + 1]) * 64 + digit_value(d[i + 2]) * 32
        + digit_value(d[i + 3]) * 16 + digit_value(d[i + 4]) * 8 + digit_value(d[i + 5]) * 4
        + digit_value(d[i + 6]) * 2 + digit_value(d[i + 7])
}

/// The bytes that groups of eight binary digits stand for.
pub open spec fn bit_bytes(d: Seq<u8>) -> Seq<u8> {
    Seq::new(d.len() / 8, |i: int| octet(d, 8 * i) as u8)
}

/// The int literal at `pos` as an item of a byte string: an int from 0 to 255. Any other
/// int is refused at its end.
pub open spec fn lex_byte(s: Seq<u8>, pos: int) -> Lexed<u8> {
    match lex_int(s, pos) {
        Ok((n, end)) => if 0 <= n <= 255 {
            Ok((n as u8, end))
        } else {
            Err((end, DecodeError::ByteOutOfBounds))
        },
        Err((at, why)) => if why == DecodeError::OutOfBoundsI64 {
            Err((at, DecodeError::ByteOutOfBounds))
        } else {
            Err((at, why))
        },
    }
}

/// An int literal ends after its start and within the input.
pub proof fn lemma_lex_int(s: Seq<u8>, pos: int)
    requires
        0 <= pos <= s.len(),
    ensures
        lex_int(s, pos).is_ok() ==> pos < (lex_int(s, pos)->Ok_0).1 <= s.len(),
{
    lemma_run_end(s, pos, 10);
    if pos + 1 <= s.len() {
        lemma_run_end(s, pos + 1, 10);
    }
    if pos + 2 <= s.len() {
        lemma_run_end(s, pos + 2, 16);
        lemma_run_end(s, pos + 2, 2);
    }
}

/// `acc` and the items of the rest of a list of bytes, from `pos` up to its closing
/// bracket: ints from 0 to 255 with a comma between them; a comma may follow the last one.
pub open spec fn lex_byte_list(s: Seq<u8>, pos: int, acc: Seq<u8>) -> Lexed<Seq<u8>>
    decreases s.len() - pos,
    via lex_byte_list_decreases
{
    if !(0 <= pos <= s.len()) {
        Err((pos, DecodeError::Eoi))
    } else {
        match skip_spaces(s, pos) {
            Err(e) => Err(e),
            Ok((_, p1)) => if at(s, p1).is_none() {
                Err((p1, DecodeError::Eoi))
            } else if s[p1] == 0x5D {
                Ok((acc, p1 + 1))
            } else {
                match lex_byte(s, p1) {
                    Err(e) => Err(e),
                    Ok((b, p2)) => match skip_spaces(s, p2) {
                        Err(e) => Err(e),
                        Ok((_, p3)) => if at(s, p3).is_none() {
                            Err((p3, DecodeError::Eoi))
                        } else if s[p3] == 0x5D {
                            Ok((acc.push(b), p3 + 1))
                        } else if s[p3] == 0x2C {
                            lex_byte_list(s, p3 + 1, acc.push(b))
                        } else {
                            Err((p3, DecodeError::ExpectedComma))
                        },
                    },
                }
            },
        }
    }
}

#[via_fn]
proof fn lex_byte_list_decreases(s: Seq<u8>, pos: int, acc: Seq<u8>) {
    if 0 <= pos <= s.len() {
        lemma_skip_spaces(s, pos);
        if skip_spaces(s, pos).is_ok() {
            let p1 = (skip_spaces(s, pos)->Ok_0).1;
            lemma_lex_int(s, p1);
            if lex_byte(s, p1).is_ok() {
                let p2 = (lex_byte(s, p1)->Ok_0).1;
                lemma_skip_spaces(s, p2);
            }
        }
    }
}

/// The bytes of the byte string literal at `pos`: `@[`, a list of bytes and `]` (see
/// `lex_byte_list`); or `@x` and an even number of hexadecimal digits; or `@b` and binary
/// digits in groups of eight. Underscores among the digits count for nothing.
pub open spec fn lex_byte_string(s: Seq<u8>, pos: int) -> Lexed<Seq<u8>> {
    if at(s, pos).is_none() {
        Err((pos, DecodeError::Eoi))
    } else if s[pos] != 0x40 {
        Err((pos, DecodeError::ExpectedBytes))
    } else if at(s, pos + 1).is_none() {
        Err((pos + 1, DecodeError::Eoi))
    } else if s[pos + 1] == 0x5B {
        lex_byte_list(s, pos + 2, Seq::empty())
    } else if s[pos + 1] == 0x78 {
        let end = run_end(s, pos + 2, 16);
        let d = stripped(s, pos + 2, end);
        if d.len() % 2 != 0 {
            Err((end, DecodeError::ByteStringHexOdd))
        } else {
            Ok((hex_bytes(d), end))
        }
    } else if s[pos + 1] == 0x62 {
        let end = run_end(s, pos + 2, 2);
        let d = stripped(s, pos + 2, end);
        if d.len() % 8 != 0 {
            Err((end, DecodeError::ByteStringBinaryNumber))
        } else {
            Ok((bit_bytes(d), end))
        }
    } else {
        Err((pos + 2, DecodeError::ExpectedBytes))
    }
}

/// What was read agrees with what the grammar gives, for bytes.
pub open spec fn agree_bytes(r: Result<(Vec<u8>, usize), Error<DecodeError>>, d: Lexed<Seq<u8>>) -> bool {
    match (r, d) {
        (Ok((v, end)), Ok((t, e))) => v@ == t && end == e,
        (Err(x), Err((at, why))) => x == failure(at, why),
        _ => false,
    }
}

/// Reads the rest of an escaping string (see [`lex_escaped`]).
pub fn read_escaped(input: &[u8], pos: usize) -> (r: Result<(Vec<u8>, usize), Error<DecodeError>>)
    requires
        pos <= input@.len(),
    ensures
        agree_bytes(r, lex_escaped(input@, pos as int, Seq::empty())),
        r.is_ok() ==> pos < r.unwrap().1 <= input@.len(),
{
    let len = input.len();
    let mut out: Vec<u8> = Vec::new();
    let mut p: usize = pos;
    loop
        invariant
            pos <= p <= len,
            len == input@.len(),
            lex_escaped(input@, pos as int, Seq::empty()) == lex_escaped(input@, p as int, out@),
        decreases len - p,
    {
        if p >= len {
            return fail(p, DecodeError::Eoi);
        }
        let b = input[p];
        if b == 0x22 {
            return Ok((out, p + 1));
        } else if b == 0x5C {
            if p + 1 >= len {
                return fail(p + 1, DecodeError::Eoi);
            }
            let c = input[p + 1];
            if c == 0x22 || c == 0x30 || c == 0x5C || c == 0x6E || c == 0x72 || c == 0x74 {
                let e: u8 = if c == 0x22 {
                    0x22
                } else if c == 0x30 {
                    0x00
                } else if c == 0x5C {
                    0x5C
                } else if c == 0x6E {
                    0x0A
                } else if c == 0x72 {
                    0x0D
                } else {
                    0x09
                };
                out.push(e);
                p = p + 2;
            } else if c == 0x7B {
                let start = p + 2;
                let mut d: usize = start;
                let mut v: u32 = 0;
                while d < len && crate::human::lex::base_digit(input[d], 16)
                    invariant
                        start <= d <= len,
                        len == input@.len(),
                        hex_end(input@, start as int) == hex_end(input@, d as int),
                        d - start <= 6 ==> v == run_value(input@, start as int, d as int, 16),
                        d - start <= 6 ==> v < 0x100_0000,
                        forall|i: int| start <= i < d ==> #[trigger] input@[i] != 0x5F,
                    decreases len - d,
                {
                    if d - start < 6 {
                        let digit = value_of_digit(input[d]);
                        assert(v * 16 + digit < 0x100_0000 * 16);
                        if d - start < 5 {
                            proof {
                                lemma_short_run(input@, start as int, d as int);
                            }
                        }
                        v = v * 16 + digit as u32;
                        proof {
                            lemma_short_run(input@, start as int, d + 1);
                        }
                    }
                    d = d + 1;
                }
                if d - start < 1 || d - start > 6 {
                    return fail(d, DecodeError::UnicodeDigits);
                }
                if !(v <= 0x10FFFF && !(0xD800 <= v && v <= 0xDFFF)) {
                    return fail(d, DecodeError::UnicodeScalar);
                }
                if d >= len {
                    return fail(d, DecodeError::Eoi);
                }
                if input[d] != 0x7D {
                    return fail(d, DecodeError::UnicodeClosing);
                }
                push_scalar(&mut out, v);
                p = d + 1;
            } else {
                return fail(p + 2, DecodeError::Utf8StringEscape);
            }
        } else {
            let w: usize = if b < 0x80 {
                1
            } else if 0xC0 <= b && b < 0xE0 {
                2
            } else if 0xE0 <= b && b < 0xF0 {
                3
            } else if 0xF0 <= b && b < 0xF8 {
                4
            } else {
                0
            };
            if w == 0 {
                return fail(p + 1, DecodeError::Utf8StringUtf8);
            }
            if w > len - p {
                return fail(len, DecodeError::Eoi);
            }
            let piece = vstd::slice::slice_subrange(input, p, p + w);
            if !is_utf8(piece) {
                return fail(p + w, DecodeError::Utf8StringUtf8);
            }
            crate::text::push_all(&mut out, piece);
            p = p + w;
        }
    }
}

/// The value of up to six hexadecimal digits is below 16 to the power of their number.
pub proof fn lemma_short_run(s: Seq<u8>, from: int, to: int)
    requires
        0 <= from <= to <= s.len(),
        to - from <= 6,
    ensures
        run_value(s, from, to, 16) < 0x100_0000,
        to - from <= 5 ==> run_value(s, from, to, 16) < 0x10_0000,
    decreases to - from,
{
    reveal_with_fuel(run_value, 7);
    if to > from {
        lemma_short_bound(s, from, to);
    }
}

proof fn lemma_short_bound(s: Seq<u8>, from: int, to: int)
    requires
        0 <= from <= to <= s.len(),
    ensures
        to - from == 0 ==> run_value(s, from, to, 16) == 0,
        to - from <= 1 ==> run_value(s, from, to, 16) < 0x10,
        to - from <= 2 ==> run_value(s, from, to, 16) < 0x100,
        to - from <= 3 ==> run_value(s, from, to, 16) < 0x1000,
        to - from <= 4 ==> run_value(s, from, to, 16) < 0x1_0000,
        to - from <= 5 ==> run_value(s, from, to, 16) < 0x10_0000,
        to - from <= 6 ==> run_value(s, from, to, 16) < 0x100_0000,
    decreases to - from,
{
    if to > from {
        lemma_short_bound(s, from, to - 1);
    }
}

/// Reads the string literal at `pos` (see [`lex_string`]).
#[verifier::loop_isolation(false)]
pub fn read_string(input: &[u8], pos: usize) -> (r: Result<(Vec<u8>, usize), Error<DecodeError>>)
    requires
        pos <= input@.len(),
    ensures
        agree_bytes(r, lex_string(input@, pos as int)),
        r.is_ok() ==> pos < r.unwrap().1 <= input@.len(),
{
    let len = input.len();
    let mut q: usize = pos;
    while q < len && input[q] == 0x40
        invariant
            pos <= q <= len,
            len == input@.len(),
            ats_end(input@, pos as int) == ats_end(input@, q as int),
        decreases len - q,
    {
        q = q + 1;
    }
    let ats = q - pos;
    if ats > 255 {
        return fail(pos, DecodeError::Utf8StringRawAts);
    }
    if q >= len {
        return fail(q, DecodeError::Eoi);
    }
    if input[q] != 0x22 {
        return fail(q, DecodeError::ExpectedUtf8String);
    }
    if ats == 0 {
        return read_escaped(input, q + 1);
    }
    let start = q + 1;
    let mut c: usize = start;
    let mut found = false;
    while !found
        invariant
            start <= c <= len,
            len == input@.len(),
            1 <= ats <= 255,
            raw_close(input@, start as int, ats as int) == raw_close(input@, c as int, ats as int),
            found ==> c < len && closes(input@, c as int, ats as int),
        decreases len - c + (if found { 0int } else { 1int }),
    {
        if c >= len {
            return fail(len, DecodeError::Eoi);
        }
        if closes_at(input, c, ats) {
            found = true;
        } else {
            c = c + 1;
        }
    }
    let content = vstd::slice::slice_subrange(input, start, c);
    if !is_utf8(content) {
        return fail(c + 1 + ats, DecodeError::Utf8StringUtf8);
    }
    Ok((vstd::slice::slice_to_vec(content), c + 1 + ats))
}

fn closes_at(input: &[u8], q: usize, ats: usize) -> (r: bool)
    requires
        q < input@.len(),
        ats <= 255,
    ensures
        r == closes(input@, q as int, ats as int),
{
    let len = input.len();
    if input[q] != 0x22 {
        return false;
    }
    if ats >= len - q {
        return false;
    }
    let mut i: usize = 1;
    while i <= ats
        invariant
            1 <= i <= ats + 1,
            q + ats < len,
            len == input@.len(),
            forall|j: int| 1 <= j < i ==> #[trigger] input@[q + j] == 0x40,
        decreases ats + 1 - i,
    {
        if input[q + i] != 0x40 {
            return false;
        }
        i = i + 1;
    }
    true
}

/// Reads an item of a byte string at `pos` (see [`lex_byte`]).
pub fn read_byte(input: &[u8], pos: usize) -> (r: Result<(u8, usize), Error<DecodeError>>)
    requires
        pos <= input@.len(),
    ensures
        agree(r, lex_byte(input@, pos as int)),
        r.is_ok() ==> pos < r.unwrap().1 <= input@.len(),
{
    match read_int(input, pos) {
        Ok((n, end)) => {
            if 0 <= n && n <= 255 {
                Ok((n as u8, end))
            } else {
                fail(end, DecodeError::ByteOutOfBounds)
            }
        },
        Err(e) => {
            match e.reason {
                crate::parser_helper::Reason::Other(DecodeError::OutOfBoundsI64) => fail(
                    e.position,
                    DecodeError::ByteOutOfBounds,
                ),
                _ => Err(e),
            }
        },
    }
}

/// Reads the byte string literal at `pos` (see [`lex_byte_string`]).
#[verifier::loop_isolation(false)]
pub fn read_byte_string(input: &[u8], pos: usize) -> (r: Result<
    (Vec<u8>, usize),
    Error<DecodeError>,
>)
    requires
        pos <= input@.len(),
    ensures
        agree_bytes(r, lex_byte_string(input@, pos as int)),
        r.is_ok() ==> pos < r.unwrap().1 <= input@.len(),
{
    let len = input.len();
    if pos >= len {
        return fail(pos, DecodeError::Eoi);
    }
    if input[pos] != 0x40 {
        return fail(pos, DecodeError::ExpectedBytes);
    }
    if pos + 1 >= len {
        return fail(pos + 1, DecodeError::Eoi);
    }
    let kind = input[pos + 1];
    if kind == 0x5B {
        let start = pos + 2;
        let mut out: Vec<u8> = Vec::new();
        let mut p: usize = start;
        loop
            invariant
                start <= p <= len,
                len == input@.len(),
                lex_byte_list(input@, start as int, Seq::empty()) == lex_byte_list(
                    input@,
                    p as int,
                    out@,
                ),
            decreases len - p,
        {
            let p1 = match read_spaces(input, p) {
                Err(e) => {
                    return Err(e);
                },
                Ok((_, p1)) => p1,
            };
            if p1 >= len {
                return fail(p1, DecodeError::Eoi);
            }
            if input[p1] == 0x5D {
                return Ok((out, p1 + 1));
            }
            let (b, p2) = match read_byte(input, p1) {
                Err(e) => {
                    return Err(e);
                },
                Ok(x) => x,
            };
            let p3 = match read_spaces(input, p2) {
                Err(e) => {
                    return Err(e);
                },
                Ok((_, p3)) => p3,
            };
            if p3 >= len {
                return fail(p3, DecodeError::Eoi);
            }
            if input[p3] == 0x5D {
                out.push(b);
                return Ok((out, p3 + 1));
            } else if input[p3] == 0x2C {
                out.push(b);
                p = p3 + 1;
            } else {
                return fail(p3, DecodeError::ExpectedComma);
            }
        }
    } else if kind == 0x78 {
        let (end, _) = read_run(input, pos + 2, 16, 0);
        let d = strip(input, pos + 2, end);
        if d.len() % 2 != 0 {
            return fail(end, DecodeError::ByteStringHexOdd);
        }
        let mut out: Vec<u8> = Vec::new();
        let mut i: usize = 0;
        while i < d.len() / 2
            invariant
                0 <= i <= d.len() / 2,
                d@.len() % 2 == 0,
                out@ == hex_bytes(d@).subrange(0, i as int),
            decreases d.len() / 2 - i,
        {
            let hi = value_of_digit(d[2 * i]);
            let lo = value_of_digit(d[2 * i + 1]);
            out.push((hi * 16 + lo) as u8);
            assert(out@ =~= hex_bytes(d@).subrange(0, i + 1));
            i = i + 1;
        }
        assert(hex_bytes(d@).subrange(0, i as int) =~= hex_bytes(d@));
        Ok((out, end))
    } else if kind == 0x62 {
        let (end, _) = read_run(input, pos + 2, 2, 0);
        let d = strip(input, pos + 2, end);
        if d.len() % 8 != 0 {
            return fail(end, DecodeError::ByteStringBinaryNumber);
        }
        let mut out: Vec<u8> = Vec::new();
        let mut i: usize = 0;
        while i < d.len() / 8
            invariant
                0 <= i <= d.len() / 8,
                d@.len() % 8 == 0,
                out@ == bit_bytes(d@).subrange(0, i as int),
            decreases d.len() / 8 - i,
        {
            let k = 8 * i;
            let v = value_of_digit(d[k]) * 128 + value_of_digit(d[k + 1]) * 64 + value_of_digit(
                d[k + 2],
            ) * 32 + value_of_digit(d[k + 3]) * 16 + value_of_digit(d[k + 4]) * 8
                + value_of_digit(d[k + 5]) * 4 + value_of_digit(d[k + 6]) * 2 + value_of_digit(
                d[k + 7],
            );
            out.push(v as u8);
            assert(out@ =~= bit_bytes(d@).subrange(0, i + 1));
            i = i + 1;
        }
        assert(bit_bytes(d@).subrange(0, i as int) =~= bit_bytes(d@));
        Ok((out, end))
    } else {
        fail(pos + 2, DecodeError::ExpectedBytes)
    }
}

} // verus!

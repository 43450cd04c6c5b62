//! The decoder of the human-readable encoding.
pub use crate::human::api::VVDeserializer;
use crate::human::lex::{
    at, has_word, is_at, lemma_skip_spaces, lex_number, read_number, read_spaces, skip_spaces,
    FloatLiteral, FloatText, Number, NumberText,
};
use crate::human::strings::{lex_byte_string, lex_string, read_byte_string, read_string};
use crate::parser_helper::{spec_is_digit, Error, Reason};
use vstd::prelude::*;

verus! {

/// Everything that can go wrong during decoding of the human-readable encoding.
#[derive(Debug, PartialEq, Eq, Clone)]
pub enum DecodeError {
    /// The input ended within a value.
    Eoi,
    /// A message of the caller's own; the decoder itself never gives it.
    Message(String),
    /// The input does not begin as any value does.
    Syntax,
    /// Whitespace where the encoding has none.
    Whitespace,
    OutOfBoundsI8,
    OutOfBoundsI16,
    OutOfBoundsI32,
    OutOfBoundsI64,
    OutOfBoundsU8,
    OutOfBoundsU16,
    OutOfBoundsU32,
    OutOfBoundsU64,
    OutOfBoundsChar,
    OutOfBoundsString,
    OutOfBoundsArray,
    OutOfBoundsSet,
    OutOfBoundsMap,
    /// A set where the values of the map asked for cannot be nil.
    InvalidSet,
    ExpectedNil,
    ExpectedBool,
    ExpectedFloat,
    ExpectedInt,
    ExpectedOption,
    ExpectedUtf8String,
    ExpectedBytes,
    ExpectedArray,
    ExpectedMap,
    ExpectedEnum(String),
    ExpectedEnumVariant,
    /// A comment that is not UTF-8.
    CommentUtf8,
    /// An int without a digit after its sign or prefix.
    IntDigits,
    /// A float without a digit before its point.
    FloatLeadingDigits,
    /// A float without its point.
    FloatPoint,
    /// A float without a digit after its point.
    FloatTrailingDigits,
    /// A float without a digit in its exponent.
    FloatExponentDigit,
    /// A byte string of an odd number of hexadecimal digits.
    ByteStringHexOdd,
    /// A byte string of a number of binary digits that eight does not divide.
    ByteStringBinaryNumber,
    /// An item of a byte string that is no int from 0 to 255.
    ByteOutOfBounds,
    /// A string that is not UTF-8.
    Utf8StringUtf8,
    /// A raw string that begins with more than 255 `@`.
    Utf8StringRawAts,
    /// A backslash before a byte that it cannot stand before.
    Utf8StringEscape,
    /// A Unicode escape of no digit or of more than six.
    UnicodeDigits,
    /// A Unicode escape of a number that is no Unicode scalar value.
    UnicodeScalar,
    /// A Unicode escape without its closing brace.
    UnicodeClosing,
    ExpectedComma,
    /// A comma in a collection without items.
    EmptyCollectionComma,
    ExpectedColon,
    /// An array without its closing bracket.
    ArrayClosing,
    /// A map or a set without its closing brace.
    MapClosing,
    /// A string asked for as a char that does not hold exactly one char.
    CharLength,
}

/// What decoding gives in contracts: a result and the offset after it, or the offset
/// and reason of a failure.
pub type Lexed<T> = Result<(T, int), (int, DecodeError)>;

/// The error with the given reason at the given offset.
pub open spec fn failure(at: int, why: DecodeError) -> Error<DecodeError> {
    Error { position: at as usize, reason: Reason::Other(why) }
}

/// An error with the given reason at the given offset.
pub fn fail<T>(at: usize, why: DecodeError) -> (r: Result<T, Error<DecodeError>>)
    ensures
        r == Err::<T, Error<DecodeError>>(failure(at as int, why)),
{
    Err(Error { position: at, reason: Reason::Other(why) })
}

/// What was read agrees with what the grammar gives: the same result and end, or the
/// same failure.
pub open spec fn agree<T>(r: Result<(T, usize), Error<DecodeError>>, d: Lexed<T>) -> bool {
    match (r, d) {
        (Ok((v, end)), Ok((t, e))) => v == t && end == e,
        (Err(x), Err((at, why))) => x == failure(at, why),
        _ => false,
    }
}

/// A value as it is written in the human-readable encoding: a float by its literal, a map
/// or a set by its entries as they stand. A string or a byte string is the array of its
/// bytes.
pub enum Literal {
    Nil,
    Bool(bool),
    Float(FloatText),
    Int(i64),
    Array(Seq<Literal>),
    Mapping(Seq<(Literal, Literal)>),
}

/// A value as it is written in the human-readable encoding: a float by its literal, a map
/// or a set by its entries as they stand. A string or a byte string is the array of its
/// bytes.
#[derive(Debug)]
pub enum Parsed {
    Nil,
    Bool(bool),
    Float(FloatLiteral),
    Int(i64),
    Array(Vec<Parsed>),
    Mapping(Vec<(Parsed, Parsed)>),
}

/// What a sequence of parsed values stands for.
pub open spec fn literals(vs: Seq<Parsed>) -> Seq<Literal>
    decreases vs,
{
    Seq::new(
        vs.len(),
        |i: int|
            if 0 <= i < vs.len() {
                vs[i].view()
            } else {
                Literal::Nil
            },
    )
}

/// What a sequence of parsed entries stands for.
pub open spec fn literal_entries(es: Seq<(Parsed, Parsed)>) -> Seq<(Literal, Literal)>
    decreases es,
{
    Seq::new(
        es.len(),
        |i: int|
            if 0 <= i < es.len() {
                (es[i].0.view(), es[i].1.view())
            } else {
                (Literal::Nil, Literal::Nil)
            },
    )
}

impl View for Parsed {
    type V = Literal;

    open spec fn view(&self) -> Literal
        decreases self,
    {
        match self {
            Parsed::Nil => Literal::Nil,
            Parsed::Bool(b) => Literal::Bool(*b),
            Parsed::Float(f) => Literal::Float(f@),
            Parsed::Int(n) => Literal::Int(*n),
            Parsed::Array(vs) => Literal::Array(literals(vs@)),
            Parsed::Mapping(es) => Literal::Mapping(literal_entries(es@)),
        }
    }
}

/// The array of ints that bytes stand for.
pub open spec fn byte_literals(bytes: Seq<u8>) -> Seq<Literal> {
    Seq::new(bytes.len(), |i: int| Literal::Int(bytes[i] as i64))
}

/// A result that ends after `pos` and within the input, as every value does.
pub open spec fn checked<T>(r: Lexed<T>, pos: int, len: int) -> Lexed<T> {
    match r {
        Ok((v, end)) => if pos < end <= len {
            r
        } else {
            Err((pos, DecodeError::Eoi))
        },
        Err(_) => r,
    }
}

/// Whether a number literal may begin with the byte: a digit, a sign, or the first letter
/// of `Inf` or `NaN`.
pub open spec fn begins_number(b: u8) -> bool {
    spec_is_digit(b) || b == 0x2B || b == 0x2D || b == 0x49 || b == 0x4E
}

/// The value at `pos`, after any whitespace: `nil`, `true`, `false`, a number, a string, a
/// byte string, an array between `[` and `]`, a map between `{` and `}`, or a set between
/// `@{` and `}`.
pub open spec fn parse(s: Seq<u8>, pos: int) -> Lexed<Literal>
    decreases s.len() - pos, 0nat,
    via parse_decreases
{
    if !(0 <= pos <= s.len()) {
        Err((pos, DecodeError::Eoi))
    } else {
        match skip_spaces(s, pos) {
            Err(e) => Err(e),
            Ok((_, p)) => if at(s, p).is_none() {
                Err((p, DecodeError::Eoi))
            } else if s[p] == 0x6E {
                if has_word(s, p, 0x6E, 0x69, 0x6C) {
                    Ok((Literal::Nil, p + 3))
                } else {
                    Err((p, DecodeError::ExpectedNil))
                }
            } else if s[p] == 0x74 {
                if has_word(s, p, 0x74, 0x72, 0x75) && at(s, p + 3) == Some(0x65u8) {
                    Ok((Literal::Bool(true), p + 4))
                } else {
                    Err((p, DecodeError::ExpectedBool))
                }
            } else if s[p] == 0x66 {
                if has_word(s, p, 0x66, 0x61, 0x6C) && at(s, p + 3) == Some(0x73u8) && at(s, p + 4)
                    == Some(0x65u8) {
                    Ok((Literal::Bool(false), p + 5))
                } else {
                    Err((p, DecodeError::ExpectedBool))
                }
            } else if begins_number(s[p]) {
                match lex_number(s, p) {
                    Ok((NumberText::F(f), end)) => Ok((Literal::Float(f), end)),
                    Ok((NumberText::I(n), end)) => Ok((Literal::Int(n), end)),
                    Err(e) => Err(e),
                }
            } else if s[p] == 0x22 {
                match lex_string(s, p) {
                    Ok((bytes, end)) => Ok((Literal::Array(byte_literals(bytes)), end)),
                    Err(e) => Err(e),
                }
            } else if s[p] == 0x5B {
                match parse_items(s, p + 1, Seq::empty()) {
                    Ok((xs, end)) => Ok((Literal::Array(xs), end)),
                    Err(e) => Err(e),
                }
            } else if s[p] == 0x7B {
                match parse_entries(s, p + 1, false, Seq::empty()) {
                    Ok((es, end)) => Ok((Literal::Mapping(es), end)),
                    Err(e) => Err(e),
                }
            } else if s[p] == 0x40 {
                if at(s, p + 1).is_none() {
                    Err((p, DecodeError::Eoi))
                } else if s[p + 1] == 0x5B || s[p + 1] == 0x62 || s[p + 1] == 0x78 {
                    match lex_byte_string(s, p) {
                        Ok((bytes, end)) => Ok((Literal::Array(byte_literals(bytes)), end)),
                        Err(e) => Err(e),
                    }
                } else if s[p + 1] == 0x22 || s[p + 1] == 0x40 {
                    match lex_string(s, p) {
                        Ok((bytes, end)) => Ok((Literal::Array(byte_literals(bytes)), end)),
                        Err(e) => Err(e),
                    }
                } else if s[p + 1] == 0x7B {
                    match parse_entries(s, p + 2, true, Seq::empty()) {
                        Ok((es, end)) => Ok((Literal::Mapping(es), end)),
                        Err(e) => Err(e),
                    }
                } else {
                    Err((p, DecodeError::Syntax))
                }
            } else {
                Err((p, DecodeError::Syntax))
            },
        }
    }
}

#[via_fn]
proof fn parse_decreases(s: Seq<u8>, pos: int) {
    if 0 <= pos <= s.len() {
        lemma_skip_spaces(s, pos);
    }
}

/// `acc` and the items of the rest of an array, from `pos` up to its `]`. `pos` is where the
/// next item may begin: after the `[`, where `acc` is empty, or after an item. Before each
/// item but the first stands a comma; one may follow the last item too. A comma in an array
/// without items is refused.
pub open spec fn parse_items(s: Seq<u8>, pos: int, acc: Seq<Literal>) -> Lexed<Seq<Literal>>
    decreases s.len() - pos, 1nat,
    via parse_items_decreases
{
    if !(0 <= pos <= s.len()) {
        Err((pos, DecodeError::Eoi))
    } else {
        match item_start(s, pos, acc.len() == 0, 0x5D) {
            Err(e) => Err(e),
            Ok((None, end)) => Ok((acc, end)),
            Ok((Some(p), _)) => match checked(parse(s, p), p, s.len() as int) {
                Err(e) => Err(e),
                Ok((v, q)) => parse_items(s, q, acc.push(v)),
            },
        }
    }
}

/// Where the next item of a collection begins, or where the collection ends: from `pos`,
/// after any whitespace, the closing byte ends the collection. Else, unless this is the
/// place of the first item, a comma must stand here, and may be followed by the closing
/// byte. A comma at the place of the first item is refused: before the closing byte as a
/// comma in an empty collection, and else as no value.
pub open spec fn item_start(s: Seq<u8>, pos: int, first: bool, close: u8) -> Lexed<Option<int>> {
    match skip_spaces(s, pos) {
        Err(e) => Err(e),
        Ok((_, p)) => if at(s, p).is_none() {
            Err((p, DecodeError::Eoi))
        } else if s[p] == close {
            Ok((None, p + 1))
        } else if s[p] == 0x2C {
            match skip_spaces(s, p + 1) {
                Err(e) => Err(e),
                Ok((_, p2)) => if at(s, p2) == Some(close) {
                    if first {
                        Err((p2, DecodeError::EmptyCollectionComma))
                    } else {
                        Ok((None, p2 + 1))
                    }
                } else if first {
                    Err((p, DecodeError::Syntax))
                } else {
                    Ok((Some(p2), p2))
                },
            }
        } else if first {
            Ok((Some(p), p))
        } else {
            Err((p, DecodeError::ExpectedComma))
        },
    }
}

/// The next item begins at or after `pos`, and the collection ends after it.
pub proof fn lemma_item_start(s: Seq<u8>, pos: int, first: bool, close: u8)
    requires
        0 <= pos <= s.len(),
    ensures
        match item_start(s, pos, first, close) {
            Ok((None, end)) => pos < end <= s.len(),
            Ok((Some(p), _)) => pos <= p <= s.len() && (!first ==> pos < p),
            Err(_) => true,
        },
{
    lemma_skip_spaces(s, pos);
    if skip_spaces(s, pos).is_ok() {
        let p = (skip_spaces(s, pos)->Ok_0).1;
        if p < s.len() {
            lemma_skip_spaces(s, p + 1);
        }
    }
}

#[via_fn]
proof fn parse_items_decreases(s: Seq<u8>, pos: int, acc: Seq<Literal>) {
    if 0 <= pos <= s.len() {
        lemma_item_start(s, pos, acc.len() == 0, 0x5D);
    }
}

/// `acc` and the entries of the rest of a map or a set, from `pos` up to its `}`, as
/// `parse_items` says of the items of an array. An entry of a map is a key, a colon and a
/// value; an entry of a set is a key alone, and its value is nil.
pub open spec fn parse_entries(s: Seq<u8>, pos: int, set: bool, acc: Seq<(Literal, Literal)>) -> Lexed<
    Seq<(Literal, Literal)>,
>
    decreases s.len() - pos, 1nat,
    via parse_entries_decreases
{
    if !(0 <= pos <= s.len()) {
        Err((pos, DecodeError::Eoi))
    } else {
        match item_start(s, pos, acc.len() == 0, 0x7D) {
            Err(e) => Err(e),
            Ok((None, end)) => Ok((acc, end)),
            Ok((Some(p), _)) => match checked(parse(s, p), p, s.len() as int) {
                Err(e) => Err(e),
                Ok((k, q)) => if set {
                    parse_entries(s, q, set, acc.push((k, Literal::Nil)))
                } else {
                    match checked(colon(s, q), q, s.len() as int) {
                        Err(e) => Err(e),
                        Ok((_, c)) => match checked(parse(s, c), c, s.len() as int) {
                            Err(e) => Err(e),
                            Ok((v, r)) => parse_entries(s, r, set, acc.push((k, v))),
                        },
                    }
                },
            },
        }
    }
}

/// The offset after the colon that stands at `pos`, after any whitespace.
pub open spec fn colon(s: Seq<u8>, pos: int) -> Lexed<()> {
    match skip_spaces(s, pos) {
        Err(e) => Err(e),
        Ok((_, p)) => if at(s, p).is_none() {
            Err((p, DecodeError::Eoi))
        } else if s[p] == 0x3A {
            Ok(((), p + 1))
        } else {
            Err((p, DecodeError::ExpectedColon))
        },
    }
}

#[via_fn]
proof fn parse_entries_decreases(s: Seq<u8>, pos: int, set: bool, acc: Seq<(Literal, Literal)>) {
    if 0 <= pos <= s.len() {
        lemma_item_start(s, pos, acc.len() == 0, 0x7D);
    }
}

/// What was read agrees with what the grammar gives, for values.
pub open spec fn agree_value(r: Result<(Parsed, usize), Error<DecodeError>>, d: Lexed<Literal>) -> bool {
    match (r, d) {
        (Ok((v, end)), Ok((t, e))) => v@ == t && end == e,
        (Err(x), Err((at, why))) => x == failure(at, why),
        _ => false,
    }
}

/// The array of ints that the bytes stand for.
pub fn bytes_to_array(bytes: &Vec<u8>) -> (v: Parsed)
    ensures
        v@ == Literal::Array(byte_literals(bytes@)),
{
    let mut out: Vec<Parsed> = Vec::with_capacity(bytes.len());
    let mut i: usize = 0;
    while i < bytes.len()
        invariant
            0 <= i <= bytes.len(),
            out@.len() == i,
            forall|j: int| 0 <= j < i ==> (#[trigger] out@[j])@ == Literal::Int(bytes@[j] as i64),
        decreases bytes.len() - i,
    {
        out.push(Parsed::Int(bytes[i] as i64));
        i = i + 1;
    }
    assert(literals(out@) =~= byte_literals(bytes@));
    Parsed::Array(out)
}

/// Finds where the next item of a collection begins, or where the collection ends (see
/// [`item_start`]).
pub fn read_item_start(input: &[u8], pos: usize, first: bool, close: u8) -> (r: Result<
    (Option<usize>, usize),
    Error<DecodeError>,
>)
    requires
        pos <= input@.len(),
    ensures
        match (r, item_start(input@, pos as int, first, close)) {
            (Ok((None, end)), Ok((None, e))) => end == e && pos < end <= input@.len(),
            (Ok((Some(p), _)), Ok((Some(sp), _))) => p == sp && pos <= p <= input@.len() && (!first
                ==> pos < p),
            (Err(x), Err((at, why))) => x == failure(at, why),
            _ => false,
        },
{
    let len = input.len();
    proof {
        lemma_item_start(input@, pos as int, first, close);
    }
    let p = match read_spaces(input, pos) {
        Err(e) => {
            return Err(e);
        },
        Ok((_, p)) => p,
    };
    if p >= len {
        return fail(p, DecodeError::Eoi);
    }
    if input[p] == close {
        Ok((None, p + 1))
    } else if input[p] == 0x2C {
        let p2 = match read_spaces(input, p + 1) {
            Err(e) => {
                return Err(e);
            },
            Ok((_, p2)) => p2,
        };
        if is_at(input, p2, close) {
            if first {
                fail(p2, DecodeError::EmptyCollectionComma)
            } else {
                Ok((None, p2 + 1))
            }
        } else if first {
            fail(p, DecodeError::Syntax)
        } else {
            Ok((Some(p2), p2))
        }
    } else if first {
        Ok((Some(p), p))
    } else {
        fail(p, DecodeError::ExpectedComma)
    }
}

/// Skips whitespace and the colon after it.
pub fn read_colon(input: &[u8], pos: usize) -> (r: Result<((), usize), Error<DecodeError>>)
    requires
        pos <= input@.len(),
    ensures
        agree(r, colon(input@, pos as int)),
        r.is_ok() ==> pos < r.unwrap().1 <= input@.len(),
{
    let len = input.len();
    let p = match read_spaces(input, pos) {
        Err(e) => {
            return Err(e);
        },
        Ok((_, p)) => p,
    };
    if p >= len {
        return fail(p, DecodeError::Eoi);
    }
    if input[p] == 0x3A {
        Ok(((), p + 1))
    } else {
        fail(p, DecodeError::ExpectedColon)
    }
}

/// Parses the value at `pos`: the value as it is written and the offset after it, or the
/// offset and reason of the failure (see [`parse`]).
#[verifier::loop_isolation(false)]
pub fn read_value(input: &[u8], pos: usize) -> (r: Result<(Parsed, usize), Error<DecodeError>>)
    requires
        pos <= input@.len(),
    ensures
        agree_value(r, parse(input@, pos as int)),
        r.is_ok() ==> pos < r.unwrap().1 <= input@.len(),
    decreases input@.len() - pos, 0nat,
{
    let len = input.len();
    let p = match read_spaces(input, pos) {
        Err(e) => {
            return Err(e);
        },
        Ok((_, p)) => p,
    };
    if p >= len {
        return fail(p, DecodeError::Eoi);
    }
    let b = input[p];
    if b == 0x6E {
        if len - p >= 3 && input[p + 1] == 0x69 && input[p + 2] == 0x6C {
            Ok((Parsed::Nil, p + 3))
        } else {
            fail(p, DecodeError::ExpectedNil)
        }
    } else if b == 0x74 {
        if len - p >= 4 && input[p + 1] == 0x72 && input[p + 2] == 0x75 && input[p + 3] == 0x65 {
            Ok((Parsed::Bool(true), p + 4))
        } else {
            fail(p, DecodeError::ExpectedBool)
        }
    } else if b == 0x66 {
        if len - p >= 5 && input[p + 1] == 0x61 && input[p + 2] == 0x6C && input[p + 3] == 0x73
            && input[p + 4] == 0x65 {
            Ok((Parsed::Bool(false), p + 5))
        } else {
            fail(p, DecodeError::ExpectedBool)
        }
    } else if (0x30 <= b && b <= 0x39) || b == 0x2B || b == 0x2D || b == 0x49 || b == 0x4E {
        match read_number(input, p) {
            Ok((Number::F(f), end)) => Ok((Parsed::Float(f), end)),
            Ok((Number::I(n), end)) => Ok((Parsed::Int(n), end)),
            Err(e) => Err(e),
        }
    } else if b == 0x22 {
        match read_string(input, p) {
            Ok((bytes, end)) => Ok((bytes_to_array(&bytes), end)),
            Err(e) => Err(e),
        }
    } else if b == 0x5B {
        read_items(input, p + 1)
    } else if b == 0x7B {
        read_entries(input, p + 1, false)
    } else if b == 0x40 {
        if p + 1 >= len {
            return fail(p, DecodeError::Eoi);
        }
        let c = input[p + 1];
        if c == 0x5B || c == 0x62 || c == 0x78 {
            match read_byte_string(input, p) {
                Ok((bytes, end)) => Ok((bytes_to_array(&bytes), end)),
                Err(e) => Err(e),
            }
        } else if c == 0x22 || c == 0x40 {
            match read_string(input, p) {
                Ok((bytes, end)) => Ok((bytes_to_array(&bytes), end)),
                Err(e) => Err(e),
            }
        } else if c == 0x7B {
            read_entries(input, p + 2, true)
        } else {
            fail(p, DecodeError::Syntax)
        }
    } else {
        fail(p, DecodeError::Syntax)
    }
}

/// Parses the items of an array from `pos`, after its `[`, up to its `]`.
#[verifier::loop_isolation(false)]
fn read_items(input: &[u8], pos: usize) -> (r: Result<(Parsed, usize), Error<DecodeError>>)
    requires
        0 < pos <= input@.len(),
    ensures
        match (r, parse_items(input@, pos as int, Seq::empty())) {
            (Ok((v, end)), Ok((xs, e))) => v@ == Literal::Array(xs) && end == e,
            (Err(x), Err((at, why))) => x == failure(at, why),
            _ => false,
        },
        r.is_ok() ==> pos < r.unwrap().1 <= input@.len(),
    decreases input@.len() - pos, 1nat,
{
    let mut out: Vec<Parsed> = Vec::new();
    let mut p: usize = pos;
    assert(literals(out@) =~= Seq::empty());
    loop
        invariant
            pos <= p <= input@.len(),
            parse_items(input@, pos as int, Seq::empty()) == parse_items(
                input@,
                p as int,
                literals(out@),
            ),
        decreases input@.len() - p + (if out@.len() == 0 { 1int } else { 0int }),
    {
        match read_item_start(input, p, out.len() == 0, 0x5D) {
            Err(e) => {
                return Err(e);
            },
            Ok((None, end)) => {
                return Ok((Parsed::Array(out), end));
            },
            Ok((Some(start), _)) => {
                match read_value(input, start) {
                    Err(e) => {
                        return Err(e);
                    },
                    Ok((v, q)) => {
                        let ghost before = literals(out@);
                        out.push(v);
                        assert(literals(out@) =~= before.push(v@));
                        p = q;
                    },
                }
            },
        }
    }
}

/// Parses the entries of a map or a set from `pos`, after its `{`, up to its `}`.
#[verifier::loop_isolation(false)]
fn read_entries(input: &[u8], pos: usize, set: bool) -> (r: Result<
    (Parsed, usize),
    Error<DecodeError>,
>)
    requires
        0 < pos <= input@.len(),
    ensures
        match (r, parse_entries(input@, pos as int, set, Seq::empty())) {
            (Ok((v, end)), Ok((es, e))) => v@ == Literal::Mapping(es) && end == e,
            (Err(x), Err((at, why))) => x == failure(at, why),
            _ => false,
        },
        r.is_ok() ==> pos < r.unwrap().1 <= input@.len(),
    decreases input@.len() - pos, 1nat,
{
    let mut out: Vec<(Parsed, Parsed)> = Vec::new();
    let mut p: usize = pos;
    assert(literal_entries(out@) =~= Seq::empty());
    loop
        invariant
            pos <= p <= input@.len(),
            parse_entries(input@, pos as int, set, Seq::empty()) == parse_entries(
                input@,
                p as int,
                set,
                literal_entries(out@),
            ),
        decreases input@.len() - p + (if out@.len() == 0 { 1int } else { 0int }),
    {
        match read_item_start(input, p, out.len() == 0, 0x7D) {
            Err(e) => {
                return Err(e);
            },
            Ok((None, end)) => {
                return Ok((Parsed::Mapping(out), end));
            },
            Ok((Some(start), _)) => {
                match read_value(input, start) {
                    Err(e) => {
                        return Err(e);
                    },
                    Ok((k, q)) => {
                        let ghost before = literal_entries(out@);
                        if set {
                            out.push((k, Parsed::Nil));
                            assert(literal_entries(out@) =~= before.push((k@, Literal::Nil)));
                            p = q;
                        } else {
                            let c = match read_colon(input, q) {
                                Err(e) => {
                                    return Err(e);
                                },
                                Ok((_, c)) => c,
                            };
                            match read_value(input, c) {
                                Err(e) => {
                                    return Err(e);
                                },
                                Ok((v, r)) => {
                                    out.push((k, v));
                                    assert(literal_entries(out@) =~= before.push((k@, v@)));
                                    p = r;
                                },
                            }
                        }
                    },
                }
            },
        }
    }
}

/// Whether two floats are written alike.
pub fn same_float(a: &FloatLiteral, b: &FloatLiteral) -> (r: bool)
    ensures
        r == (a@ == b@),
{
    match (a, b) {
        (FloatLiteral::NaN, FloatLiteral::NaN) => true,
        (FloatLiteral::Inf, FloatLiteral::Inf) => true,
        (FloatLiteral::NegInf, FloatLiteral::NegInf) => true,
        (FloatLiteral::Decimal(x), FloatLiteral::Decimal(y)) => crate::compact::de::same_bytes(
            x.as_slice(),
            y.as_slice(),
        ),
        _ => false,
    }
}

impl Parsed {
    /// Whether two values are written alike: the same floats by their literals, and the same
    /// entries in the same order.
    #[verifier::loop_isolation(false)]
    pub fn same(&self, other: &Parsed) -> (r: bool)
        ensures
            r == (self@ == other@),
        decreases self,
    {
        match (self, other) {
            (Parsed::Nil, Parsed::Nil) => true,
            (Parsed::Bool(x), Parsed::Bool(y)) => *x == *y,
            (Parsed::Float(x), Parsed::Float(y)) => same_float(x, y),
            (Parsed::Int(x), Parsed::Int(y)) => *x == *y,
            (Parsed::Array(x), Parsed::Array(y)) => {
                let ghost tx = literals(x@);
                let ghost ty = literals(y@);
                assert(self@ == Literal::Array(tx) && other@ == Literal::Array(ty));
                if x.len() != y.len() {
                    assert(tx.len() != ty.len());
                    return false;
                }
                let mut i: usize = 0;
                while i < x.len()
                    invariant
                        0 <= i <= x.len(),
                        forall|j: int| 0 <= j < i ==> tx[j] == ty[j],
                    decreases x.len() - i,
                {
                    assert(tx[i as int] == x@[i as int]@ && ty[i as int] == y@[i as int]@);
                    if !x[i].same(&y[i]) {
                        return false;
                    }
                    i = i + 1;
                }
                assert(tx =~= ty);
                true
            },
            (Parsed::Mapping(x), Parsed::Mapping(y)) => {
                let ghost tx = literal_entries(x@);
                let ghost ty = literal_entries(y@);
                assert(self@ == Literal::Mapping(tx) && other@ == Literal::Mapping(ty));
                if x.len() != y.len() {
                    assert(tx.len() != ty.len());
                    return false;
                }
                let mut i: usize = 0;
                while i < x.len()
                    invariant
                        0 <= i <= x.len(),
                        forall|j: int| 0 <= j < i ==> tx[j] == ty[j],
                    decreases x.len() - i,
                {
                    assert(tx[i as int] == (x@[i as int].0@, x@[i as int].1@));
                    assert(ty[i as int] == (y@[i as int].0@, y@[i as int].1@));
                    if !x[i].0.same(&y[i].0) || !x[i].1.same(&y[i].1) {
                        return false;
                    }
                    i = i + 1;
                }
                assert(tx =~= ty);
                true
            },
            _ => false,
        }
    }
}

impl PartialEq for Parsed {
    fn eq(&self, other: &Self) -> (r: bool) {
        self.same(other)
    }
}

impl vstd::std_specs::cmp::PartialEqSpecImpl for Parsed {
    open spec fn obeys_eq_spec() -> bool {
        true
    }

    open spec fn eq_spec(&self, other: &Self) -> bool {
        self@ == other@
    }
}

} // verus!

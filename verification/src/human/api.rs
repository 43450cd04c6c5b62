//! The human-readable decoder, kind by kind.
use crate::human::de::{
    agree, colon, fail, failure, item_start, lemma_item_start, parse, read_colon,
    read_item_start, read_value, DecodeError, Lexed, Parsed,
};
use crate::human::lex::{
    at, has_word, is_at, lex_float, lex_int, read_float, read_int, read_spaces, skip_spaces,
    FloatLiteral, FloatText,
};
use crate::human::strings::{
    agree_bytes, lemma_lex_int, lex_byte_string, lex_string, read_byte_string, read_string,
    scalar_width,
};
use crate::parser_helper::{Cursor, Error, ParserHelper, Reason};
use crate::utf8::{char_from_u32, is_scalar, string_from_utf8};
use vstd::prelude::*;
use vstd::utf8::{encode_utf8, valid_utf8};

verus! {

/// The offset after any whitespace at `pos` and the word of three bytes there; else the
/// failure `why` at the offset after the whitespace.
pub open spec fn lex_word(s: Seq<u8>, pos: int, a: u8, b: u8, c: u8, why: DecodeError) -> Lexed<
    (),
> {
    match skip_spaces(s, pos) {
        Err(e) => Err(e),
        Ok((_, p)) => if has_word(s, p, a, b, c) {
            Ok(((), p + 3))
        } else {
            Err((p, why))
        },
    }
}

/// The bool at `pos`, after any whitespace: `true` or `false`.
pub open spec fn lex_bool(s: Seq<u8>, pos: int) -> Lexed<bool> {
    match skip_spaces(s, pos) {
        Err(e) => Err(e),
        Ok((_, p)) => if has_word(s, p, 0x74, 0x72, 0x75) && at(s, p + 3) == Some(0x65u8) {
            Ok((true, p + 4))
        } else if has_word(s, p, 0x66, 0x61, 0x6C) && at(s, p + 3) == Some(0x73u8) && at(s, p + 4)
            == Some(0x65u8) {
            Ok((false, p + 5))
        } else {
            Err((p, DecodeError::ExpectedBool))
        },
    }
}

/// The int literal at `pos`, after any whitespace, which must lie from `lo` to `hi`; else
/// the failure `out` at its start.
pub open spec fn lex_bounded(s: Seq<u8>, pos: int, lo: int, hi: int, out: DecodeError) -> Lexed<
    int,
> {
    match skip_spaces(s, pos) {
        Err(e) => Err(e),
        Ok((_, p)) => match lex_int(s, p) {
            Err(e) => Err(e),
            Ok((n, end)) => if lo <= n <= hi {
                Ok((n, end))
            } else {
                Err((p, out))
            },
        },
    }
}

/// The float literal at `pos`, after any whitespace.
pub open spec fn lex_spaced_float(s: Seq<u8>, pos: int) -> Lexed<FloatText> {
    match skip_spaces(s, pos) {
        Err(e) => Err(e),
        Ok((_, p)) => lex_float(s, p),
    }
}

/// `acc` and the ints of the rest of an array of bytes, from `pos` up to its `]`: ints from
/// 0 to 255, with commas as in every array. Another int is refused at its start.
pub open spec fn lex_byte_items(s: Seq<u8>, pos: int, acc: Seq<u8>) -> Lexed<Seq<u8>>
    decreases s.len() - pos, (if acc.len() == 0 { 1int } else { 0int }),
    via lex_byte_items_decreases
{
    if !(0 <= pos <= s.len()) {
        Err((pos, DecodeError::Eoi))
    } else {
        match item_start(s, pos, acc.len() == 0, 0x5D) {
            Err(e) => Err(e),
            Ok((None, end)) => Ok((acc, end)),
            Ok((Some(p), _)) => match lex_int(s, p) {
                Err(e) => Err(e),
                Ok((n, q)) => if 0 <= n <= 255 {
                    lex_byte_items(s, q, acc.push(n as u8))
                } else {
                    Err((p, DecodeError::OutOfBoundsU8))
                },
            },
        }
    }
}

#[via_fn]
proof fn lex_byte_items_decreases(s: Seq<u8>, pos: int, acc: Seq<u8>) {
    if 0 <= pos <= s.len() {
        lemma_item_start(s, pos, acc.len() == 0, 0x5D);
        if item_start(s, pos, acc.len() == 0, 0x5D).is_ok() {
            let r = item_start(s, pos, acc.len() == 0, 0x5D)->Ok_0;
            if r.0.is_some() {
                lemma_lex_int(s, r.0.unwrap());
            }
        }
    }
}

/// The bytes at `pos`, after any whitespace: those of a byte string, the UTF-8 bytes of a
/// string, or those that an array of ints holds. Anything else is refused with `why`.
pub open spec fn lex_bytes(s: Seq<u8>, pos: int, why: DecodeError) -> Lexed<Seq<u8>> {
    match skip_spaces(s, pos) {
        Err(e) => Err(e),
        Ok((_, p)) => if at(s, p).is_none() {
            Err((p, DecodeError::Eoi))
        } else if s[p] == 0x22 {
            lex_string(s, p)
        } else if s[p] == 0x5B {
            lex_byte_items(s, p + 1, Seq::empty())
        } else if s[p] == 0x40 {
            if at(s, p + 1).is_none() {
                Err((p, DecodeError::Eoi))
            } else if s[p + 1] == 0x5B || s[p + 1] == 0x62 || s[p + 1] == 0x78 {
                lex_byte_string(s, p)
            } else if s[p + 1] == 0x22 || s[p + 1] == 0x40 {
                lex_string(s, p)
            } else {
                Err((p, DecodeError::Syntax))
            }
        } else {
            Err((p, why))
        },
    }
}

/// The UTF-8 bytes of the string at `pos`: bytes as `lex_bytes` gives them, refused at their
/// end if they are not UTF-8.
pub open spec fn lex_text(s: Seq<u8>, pos: int) -> Lexed<Seq<u8>> {
    match lex_bytes(s, pos, DecodeError::ExpectedUtf8String) {
        Err(e) => Err(e),
        Ok((bytes, end)) => if valid_utf8(bytes) {
            Ok((bytes, end))
        } else {
            Err((end, DecodeError::Utf8StringUtf8))
        },
    }
}

/// The scalar value that the UTF-8 bytes of one char stand for.
pub open spec fn scalar_of(bytes: Seq<u8>) -> nat {
    if bytes.len() == 1 {
        bytes[0] as nat
    } else if bytes.len() == 2 {
        ((bytes[0] % 0x20) * 0x40 + bytes[1] % 0x40) as nat
    } else if bytes.len() == 3 {
        ((bytes[0] % 0x10) * 0x1000 + (bytes[1] % 0x40) * 0x40 + bytes[2] % 0x40) as nat
    } else {
        ((bytes[0] % 0x08) * 0x4_0000 + (bytes[1] % 0x40) * 0x1000 + (bytes[2] % 0x40) * 0x40
            + bytes[3] % 0x40) as nat
    }
}

/// The scalar value of the char at `pos`: a string as `lex_text` gives it, which must hold
/// exactly one char; else the string is refused at its end.
pub open spec fn lex_char(s: Seq<u8>, pos: int) -> Lexed<nat> {
    match lex_text(s, pos) {
        Err(e) => Err(e),
        Ok((bytes, end)) => if bytes.len() >= 1 && scalar_width(bytes[0]) == bytes.len()
            && is_scalar(scalar_of(bytes) as u32) {
            Ok((scalar_of(bytes), end))
        } else {
            Err((end, DecodeError::CharLength))
        },
    }
}

/// The offset after the end of a map of one entry, from the end of its value: after any
/// whitespace, an optional comma and any whitespace, the closing brace.
pub open spec fn lex_close(s: Seq<u8>, pos: int) -> Lexed<()> {
    match skip_spaces(s, pos) {
        Err(e) => Err(e),
        Ok((_, p)) => if at(s, p) == Some(0x2Cu8) {
            match skip_spaces(s, p + 1) {
                Err(e) => Err(e),
                Ok((_, q)) => if at(s, q).is_none() {
                    Err((q, DecodeError::Eoi))
                } else if s[q] == 0x7D {
                    Ok(((), q + 1))
                } else {
                    Err((q, DecodeError::MapClosing))
                },
            }
        } else if at(s, p).is_none() {
            Err((p, DecodeError::Eoi))
        } else if s[p] == 0x7D {
            Ok(((), p + 1))
        } else {
            Err((p, DecodeError::MapClosing))
        },
    }
}

/// How a value with a tag begins: an option or a value of an enum.
pub enum TagText {
    /// The tag alone, as a string: nothing follows.
    Alone(Seq<u8>),
    /// `{`, the tag and a colon: the data follows, and after it the end of the map.
    WithData(Seq<u8>),
    /// `@{`, the tag and the end of the set: the data is nil, and nothing follows.
    WithNil(Seq<u8>),
}

/// The head of the tagged value at `pos`, after any whitespace (see `TagText`). What does
/// not begin as a string, a map or a set is refused with `why`.
pub open spec fn lex_tag(s: Seq<u8>, pos: int, why: DecodeError) -> Lexed<TagText> {
    match skip_spaces(s, pos) {
        Err(e) => Err(e),
        Ok((_, p)) => if at(s, p).is_none() {
            Err((p, DecodeError::Eoi))
        } else if s[p] == 0x7B {
            match lex_text(s, p + 1) {
                Err(e) => Err(e),
                Ok((tag, q)) => match colon(s, q) {
                    Err(e) => Err(e),
                    Ok((_, c)) => Ok((TagText::WithData(tag), c)),
                },
            }
        } else if s[p] == 0x40 && at(s, p + 1) == Some(0x7Bu8) {
            match lex_text(s, p + 2) {
                Err(e) => Err(e),
                Ok((tag, q)) => match lex_close(s, q) {
                    Err(e) => Err(e),
                    Ok((_, c)) => Ok((TagText::WithNil(tag), c)),
                },
            }
        } else if s[p] == 0x22 || s[p] == 0x5B || s[p] == 0x40 {
            match lex_text(s, p) {
                Err(e) => Err(e),
                Ok((tag, q)) => Ok((TagText::Alone(tag), q)),
            }
        } else {
            Err((p, why))
        },
    }
}

/// The bytes of `None`.
pub open spec fn none_text() -> Seq<u8> {
    seq![0x4Eu8, 0x6Fu8, 0x6Eu8, 0x65u8]
}

/// The bytes of `Some`.
pub open spec fn some_text() -> Seq<u8> {
    seq![0x53u8, 0x6Fu8, 0x6Du8, 0x65u8]
}

/// How an option begins.
#[derive(Debug, PartialEq, Eq, Clone, Copy, Structural)]
pub enum OptionHead {
    /// `None`: nothing follows.
    Absent,
    /// `Some`: the value follows, and after it the end of the map.
    Present,
    /// `Some(nil)`, written as a set: nothing follows.
    PresentNil,
}

/// The head of the option at `pos`: the tag `None` alone, or the tag `Some` with data. Any
/// other tagged value is refused at its start.
pub open spec fn lex_option(s: Seq<u8>, pos: int) -> Lexed<OptionHead> {
    match lex_tag(s, pos, DecodeError::ExpectedOption) {
        Err(e) => Err(e),
        Ok((TagText::Alone(tag), end)) => if tag == none_text() {
            Ok((OptionHead::Absent, end))
        } else {
            Err(((skip_spaces(s, pos)->Ok_0).1, DecodeError::ExpectedOption))
        },
        Ok((TagText::WithData(tag), end)) => if tag == some_text() {
            Ok((OptionHead::Present, end))
        } else {
            Err(((skip_spaces(s, pos)->Ok_0).1, DecodeError::ExpectedOption))
        },
        Ok((TagText::WithNil(tag), end)) => if tag == some_text() {
            Ok((OptionHead::PresentNil, end))
        } else {
            Err(((skip_spaces(s, pos)->Ok_0).1, DecodeError::ExpectedOption))
        },
    }
}

/// How a value of an enum begins.
#[derive(Debug, PartialEq, Eq, Clone)]
pub enum EnumHead {
    /// A variant without data, by its name: nothing follows.
    Unit(String),
    /// A variant with data, by its name: the data follows, and after it the end of the map.
    Data(String),
    /// A variant whose data is nil, by its name, written as a set: nothing follows.
    DataNil(String),
}

impl EnumHead {
    /// The head as it is written.
    pub open spec fn text(self) -> TagText {
        match self {
            EnumHead::Unit(name) => TagText::Alone(encode_utf8(name@)),
            EnumHead::Data(name) => TagText::WithData(encode_utf8(name@)),
            EnumHead::DataNil(name) => TagText::WithNil(encode_utf8(name@)),
        }
    }
}

/// How a sequence begins.
#[derive(Debug, PartialEq, Eq, Clone)]
pub enum SeqHead {
    /// A string or a byte string: its bytes are the items, and nothing follows.
    Bytes(Vec<u8>),
    /// An array: its items follow (see `VVDeserializer::next_item`).
    Open,
}

/// How a sequence begins, in contracts.
pub enum SeqText {
    Bytes(Seq<u8>),
    Open,
}

impl View for SeqHead {
    type V = SeqText;

    open spec fn view(&self) -> SeqText {
        match self {
            SeqHead::Bytes(b) => SeqText::Bytes(b@),
            SeqHead::Open => SeqText::Open,
        }
    }
}

/// The head of the sequence at `pos`, after any whitespace: a whole string or byte string,
/// or the `[` of an array.
pub open spec fn lex_seq(s: Seq<u8>, pos: int) -> Lexed<SeqText> {
    match skip_spaces(s, pos) {
        Err(e) => Err(e),
        Ok((_, p)) => if at(s, p).is_none() {
            Err((p, DecodeError::Eoi))
        } else if s[p] == 0x5B {
            Ok((SeqText::Open, p + 1))
        } else if s[p] == 0x22 || s[p] == 0x40 {
            match lex_bytes(s, p, DecodeError::ExpectedArray) {
                Err(e) => Err(e),
                Ok((bytes, end)) => Ok((SeqText::Bytes(bytes), end)),
            }
        } else {
            Err((p, DecodeError::ExpectedArray))
        },
    }
}

/// How a map begins.
#[derive(Debug, PartialEq, Eq, Clone, Copy, Structural)]
pub enum MapHead {
    /// A map: its entries follow, each a key, a colon and a value.
    Entries,
    /// A set: its keys follow, each with the value nil.
    Keys,
}

/// The head of the map at `pos`, after any whitespace: `{`, or `@{` for a set.
pub open spec fn lex_map(s: Seq<u8>, pos: int) -> Lexed<MapHead> {
    match skip_spaces(s, pos) {
        Err(e) => Err(e),
        Ok((_, p)) => if at(s, p) == Some(0x40u8) && at(s, p + 1) == Some(0x7Bu8) {
            Ok((MapHead::Keys, p + 2))
        } else if at(s, p) == Some(0x7Bu8) {
            Ok((MapHead::Entries, p + 1))
        } else {
            Err((p, DecodeError::ExpectedMap))
        },
    }
}

/// How a step of a deserializer went: it gave what the outcome says and stands at the end
/// of what it read, or it failed as the outcome says and stands where it stood.
pub open spec fn stepped<T>(
    pre: Cursor,
    post: Cursor,
    r: Result<T, Error<DecodeError>>,
    d: Lexed<T>,
) -> bool {
    match (r, d) {
        (Ok(v), Ok((sv, end))) => v == sv && post == pre.at(end),
        (Err(e), Err((at, why))) => e == failure(at, why) && post == pre,
        _ => false,
    }
}

/// Reads the ints of an array of bytes from `pos`, after its `[`, up to its `]`.
pub fn read_byte_items(input: &[u8], pos: usize) -> (r: Result<
    (Vec<u8>, usize),
    Error<DecodeError>,
>)
    requires
        pos <= input@.len(),
    ensures
        agree_bytes(r, lex_byte_items(input@, pos as int, Seq::empty())),
        r.is_ok() ==> pos < r.unwrap().1 <= input@.len(),
{
    let mut out: Vec<u8> = Vec::new();
    let mut p: usize = pos;
    loop
        invariant
            pos <= p <= input@.len(),
            lex_byte_items(input@, pos as int, Seq::empty()) == lex_byte_items(
                input@,
                p as int,
                out@,
            ),
        decreases input@.len() - p + (if out@.len() == 0 { 1int } else { 0int }),
    {
        match read_item_start(input, p, out.len() == 0, 0x5D) {
            Err(e) => {
                return Err(e);
            },
            Ok((None, end)) => {
                return Ok((out, end));
            },
            Ok((Some(start), _)) => {
                match read_int(input, start) {
                    Err(e) => {
                        return Err(e);
                    },
                    Ok((n, q)) => {
                        if 0 <= n && n <= 255 {
                            out.push(n as u8);
                            p = q;
                        } else {
                            return fail(start, DecodeError::OutOfBoundsU8);
                        }
                    },
                }
            },
        }
    }
}

/// Reads bytes at `pos` (see [`lex_bytes`]).
pub fn read_bytes(input: &[u8], pos: usize, why: DecodeError) -> (r: Result<
    (Vec<u8>, usize),
    Error<DecodeError>,
>)
    requires
        pos <= input@.len(),
    ensures
        agree_bytes(r, lex_bytes(input@, pos as int, why)),
        r.is_ok() ==> pos < r.unwrap().1 <= input@.len(),
{
    let len = input.len();
    let p = match read_spaces(input, pos) {
        Err(e) => {
            return Err(e);
        },
        Ok((_, p)) => p,
    };
    if p >= len {
        return fail(p, DecodeError::Eoi);
    }
    let b = input[p];
    if b == 0x22 {
        read_string(input, p)
    } else if b == 0x5B {
        read_byte_items(input, p + 1)
    } else if b == 0x40 {
        if p + 1 >= len {
            return fail(p, DecodeError::Eoi);
        }
        let c = input[p + 1];
        if c == 0x5B || c == 0x62 || c == 0x78 {
            read_byte_string(input, p)
        } else if c == 0x22 || c == 0x40 {
            read_string(input, p)
        } else {
            fail(p, DecodeError::Syntax)
        }
    } else {
        fail(p, why)
    }
}

/// Reads a string at `pos` (see [`lex_text`]).
pub fn read_text(input: &[u8], pos: usize) -> (r: Result<(String, usize), Error<DecodeError>>)
    requires
        pos <= input@.len(),
    ensures
        match (r, lex_text(input@, pos as int)) {
            (Ok((v, end)), Ok((bytes, se))) => encode_utf8(v@) == bytes && end == se,
            (Err(x), Err((at, why))) => x == failure(at, why),
            _ => false,
        },
        r.is_ok() ==> pos < r.unwrap().1 <= input@.len(),
{
    match read_bytes(input, pos, DecodeError::ExpectedUtf8String) {
        Err(e) => Err(e),
        Ok((bytes, end)) => match string_from_utf8(bytes) {
            Some(s) => Ok((s, end)),
            None => fail(end, DecodeError::Utf8StringUtf8),
        },
    }
}

/// Reads the end of a map of one entry (see [`lex_close`]).
pub fn read_close(input: &[u8], pos: usize) -> (r: Result<((), usize), Error<DecodeError>>)
    requires
        pos <= input@.len(),
    ensures
        agree(r, lex_close(input@, pos as int)),
        r.is_ok() ==> pos < r.unwrap().1 <= input@.len(),
{
    let len = input.len();
    let p = match read_spaces(input, pos) {
        Err(e) => {
            return Err(e);
        },
        Ok((_, p)) => p,
    };
    let q = if is_at(input, p, 0x2C) {
        match read_spaces(input, p + 1) {
            Err(e) => {
                return Err(e);
            },
            Ok((_, q)) => q,
        }
    } else {
        p
    };
    if q >= len {
        return fail(q, DecodeError::Eoi);
    }
    if input[q] == 0x7D {
        Ok(((), q + 1))
    } else {
        fail(q, DecodeError::MapClosing)
    }
}

/// Reads the head of a tagged value (see [`lex_tag`]).
pub fn read_tag(input: &[u8], pos: usize, why: DecodeError) -> (r: Result<
    (EnumHead, usize),
    Error<DecodeError>,
>)
    requires
        pos <= input@.len(),
    ensures
        match (r, lex_tag(input@, pos as int, why)) {
            (Ok((v, end)), Ok((t, se))) => v.text() == t && end == se,
            (Err(x), Err((at, why))) => x == failure(at, why),
            _ => false,
        },
        r.is_ok() ==> pos < r.unwrap().1 <= input@.len(),
{
    let len = input.len();
    let p = match read_spaces(input, pos) {
        Err(e) => {
            return Err(e);
        },
        Ok((_, p)) => p,
    };
    if p >= len {
        return fail(p, DecodeError::Eoi);
    }
    let b = input[p];
    if b == 0x7B {
        match read_text(input, p + 1) {
            Err(e) => Err(e),
            Ok((tag, q)) => match read_colon(input, q) {
                Err(e) => Err(e),
                Ok((_, c)) => Ok((EnumHead::Data(tag), c)),
            },
        }
    } else if b == 0x40 && is_at(input, p + 1, 0x7B) {
        match read_text(input, p + 2) {
            Err(e) => Err(e),
            Ok((tag, q)) => match read_close(input, q) {
                Err(e) => Err(e),
                Ok((_, c)) => Ok((EnumHead::DataNil(tag), c)),
            },
        }
    } else if b == 0x22 || b == 0x5B || b == 0x40 {
        match read_text(input, p) {
            Err(e) => Err(e),
            Ok((tag, q)) => Ok((EnumHead::Unit(tag), q)),
        }
    } else {
        fail(p, why)
    }
}

/// A structure that deserializes valuable values from the human-readable encoding, kind by
/// kind.
pub struct VVDeserializer<'de> {
    p: ParserHelper<'de>,
}

impl<'de> View for VVDeserializer<'de> {
    type V = Cursor;

    closed spec fn view(&self) -> Cursor {
        self.p@
    }
}

impl<'de> VVDeserializer<'de> {
    /// The deserializer is valid: its position lies within the input, or at its end.
    pub open spec fn wf(&self) -> bool {
        self@.wf()
    }

    pub fn new(input: &'de [u8]) -> (d: Self)
        ensures
            d.wf(),
            d@.input == input@,
            d@.position == 0,
    {
        VVDeserializer { p: ParserHelper::new(input) }
    }

    /// The current byte offset.
    pub fn position(&self) -> (n: usize)
        ensures
            n == self@.position,
    {
        self.p.position()
    }

    fn moved<T>(&mut self, end: usize, v: T) -> (r: Result<T, Error<DecodeError>>)
        requires
            old(self).wf(),
            old(self)@.position <= end <= old(self)@.input.len(),
        ensures
            r == Ok::<T, Error<DecodeError>>(v),
            final(self)@ == old(self)@.at(end as int),
            final(self).wf(),
    {
        let by = end - self.p.position();
        self.p.advance(by);
        Ok(v)
    }

    /// Reads any value, as it is written (see [`parse`]).
    pub fn parse_value(&mut self) -> (r: Result<Parsed, Error<DecodeError>>)
        requires
            old(self).wf(),
        ensures
            final(self).wf(),
            match (r, parse(old(self)@.input, old(self)@.position)) {
                (Ok(v), Ok((t, end))) => v@ == t && final(self)@ == old(self)@.at(end),
                (Err(e), Err((at, why))) => e == failure(at, why) && final(self)@ == old(self)@,
                _ => false,
            },
    {
        match read_value(self.p.input(), self.p.position()) {
            Err(e) => Err(e),
            Ok((v, end)) => self.moved(end, v),
        }
    }

    /// Reads `nil`, after any whitespace.
    pub fn parse_nil(&mut self) -> (r: Result<(), Error<DecodeError>>)
        requires
            old(self).wf(),
        ensures
            final(self).wf(),
            stepped(
                old(self)@,
                final(self)@,
                r,
                lex_word(
                    old(self)@.input,
                    old(self)@.position,
                    0x6E,
                    0x69,
                    0x6C,
                    DecodeError::ExpectedNil,
                ),
            ),
    {
        let input = self.p.input();
        let len = input.len();
        let p = match read_spaces(input, self.p.position()) {
            Err(e) => {
                return Err(e);
            },
            Ok((_, p)) => p,
        };
        if len - p >= 3 && input[p] == 0x6E && input[p + 1] == 0x69 && input[p + 2] == 0x6C {
            self.moved(p + 3, ())
        } else {
            fail(p, DecodeError::ExpectedNil)
        }
    }

    /// Reads nil.
    pub fn deserialize_unit(&mut self) -> (r: Result<(), Error<DecodeError>>)
        requires
            old(self).wf(),
        ensures
            final(self).wf(),
            stepped(
                old(self)@,
                final(self)@,
                r,
                lex_word(
                    old(self)@.input,
                    old(self)@.position,
                    0x6E,
                    0x69,
                    0x6C,
                    DecodeError::ExpectedNil,
                ),
            ),
    {
        self.parse_nil()
    }

    /// Reads `true` or `false`, after any whitespace.
    pub fn parse_bool(&mut self) -> (r: Result<bool, Error<DecodeError>>)
        requires
            old(self).wf(),
        ensures
            final(self).wf(),
            stepped(old(self)@, final(self)@, r, lex_bool(old(self)@.input, old(self)@.position)),
    {
        let input = self.p.input();
        let len = input.len();
        let p = match read_spaces(input, self.p.position()) {
            Err(e) => {
                return Err(e);
            },
            Ok((_, p)) => p,
        };
        if len - p >= 4 && input[p] == 0x74 && input[p + 1] == 0x72 && input[p + 2] == 0x75
            && input[p + 3] == 0x65 {
            self.moved(p + 4, true)
        } else if len - p >= 5 && input[p] == 0x66 && input[p + 1] == 0x61 && input[p + 2] == 0x6C
            && input[p + 3] == 0x73 && input[p + 4] == 0x65 {
            self.moved(p + 5, false)
        } else {
            fail(p, DecodeError::ExpectedBool)
        }
    }

    /// Reads a bool.
    pub fn deserialize_bool(&mut self) -> (r: Result<bool, Error<DecodeError>>)
        requires
            old(self).wf(),
        ensures
            final(self).wf(),
            stepped(old(self)@, final(self)@, r, lex_bool(old(self)@.input, old(self)@.position)),
    {
        self.parse_bool()
    }

    /// Reads an int literal, after any whitespace, that must lie from `lo` to `hi`; else
    /// fails with `out` at its start.
    pub fn parse_bounded(&mut self, lo: i64, hi: i64, out: DecodeError) -> (r: Result<
        i64,
        Error<DecodeError>,
    >)
        requires
            old(self).wf(),
        ensures
            final(self).wf(),
            match (
                r,
                lex_bounded(old(self)@.input, old(self)@.position, lo as int, hi as int, out),
            ) {
                (Ok(v), Ok((n, end))) => v == n && lo <= v <= hi && final(self)@ == old(self)@.at(
                    end,
                ),
                (Err(e), Err((at, why))) => e == failure(at, why) && final(self)@ == old(self)@,
                _ => false,
            },
    {
        let input = self.p.input();
        let p = match read_spaces(input, self.p.position()) {
            Err(e) => {
                return Err(e);
            },
            Ok((_, p)) => p,
        };
        match read_int(input, p) {
            Err(e) => Err(e),
            Ok((n, end)) => {
                if n < lo || n > hi {
                    fail(p, out)
                } else {
                    self.moved(end, n)
                }
            },
        }
    }

    /// Reads an int literal that fits an `i8`, after any whitespace. Another int is refused at its
    /// start.
    pub fn deserialize_i8(&mut self) -> (r: Result<i8, Error<DecodeError>>)
        requires
            old(self).wf(),
        ensures
            final(self).wf(),
            match (
                r,
                lex_bounded(old(self)@.input, old(self)@.position, -0x80, 0x7F, DecodeError::OutOfBoundsI8),
            ) {
                (Ok(v), Ok((n, end))) => v == n && final(self)@ == old(self)@.at(end),
                (Err(e), Err((at, why))) => e == failure(at, why) && final(self)@ == old(self)@,
                _ => false,
            },
    {
        match self.parse_bounded(-0x80, 0x7F, DecodeError::OutOfBoundsI8) {
            Ok(n) => Ok(n as i8),
            Err(e) => Err(e),
        }
    }

    /// Reads an int literal that fits an `i16`, after any whitespace. Another int is refused at its
    /// start.
    pub fn deserialize_i16(&mut self) -> (r: Result<i16, Error<DecodeError>>)
        requires
            old(self).wf(),
        ensures
            final(self).wf(),
            match (
                r,
                lex_bounded(old(self)@.input, old(self)@.position, -0x8000, 0x7FFF, DecodeError::OutOfBoundsI16),
            ) {
                (Ok(v), Ok((n, end))) => v == n && final(self)@ == old(self)@.at(end),
                (Err(e), Err((at, why))) => e == failure(at, why) && final(self)@ == old(self)@,
                _ => false,
            },
    {
        match self.parse_bounded(-0x8000, 0x7FFF, DecodeError::OutOfBoundsI16) {
            Ok(n) => Ok(n as i16),
            Err(e) => Err(e),
        }
    }

    /// Reads an int literal that fits an `i32`, after any whitespace. Another int is refused at its
    /// start.
    pub fn deserialize_i32(&mut self) -> (r: Result<i32, Error<DecodeError>>)
        requires
            old(self).wf(),
        ensures
            final(self).wf(),
            match (
                r,
                lex_bounded(old(self)@.input, old(self)@.position, -0x8000_0000, 0x7FFF_FFFF, DecodeError::OutOfBoundsI32),
            ) {
                (Ok(v), Ok((n, end))) => v == n && final(self)@ == old(self)@.at(end),
                (Err(e), Err((at, why))) => e == failure(at, why) && final(self)@ == old(self)@,
                _ => false,
            },
    {
        match self.parse_bounded(-0x8000_0000, 0x7FFF_FFFF, DecodeError::OutOfBoundsI32) {
            Ok(n) => Ok(n as i32),
            Err(e) => Err(e),
        }
    }

    /// Reads an int literal, after any whitespace. Another int is refused at its
    /// start.
    pub fn deserialize_i64(&mut self) -> (r: Result<i64, Error<DecodeError>>)
        requires
            old(self).wf(),
        ensures
            final(self).wf(),
            match (
                r,
                lex_bounded(old(self)@.input, old(self)@.position, -0x8000_0000_0000_0000, 0x7FFF_FFFF_FFFF_FFFF, DecodeError::OutOfBoundsI64),
            ) {
                (Ok(v), Ok((n, end))) => v == n && final(self)@ == old(self)@.at(end),
                (Err(e), Err((at, why))) => e == failure(at, why) && final(self)@ == old(self)@,
                _ => false,
            },
    {
        match self.parse_bounded(-0x8000_0000_0000_0000, 0x7FFF_FFFF_FFFF_FFFF, DecodeError::OutOfBoundsI64) {
            Ok(n) => Ok(n as i64),
            Err(e) => Err(e),
        }
    }

    /// Reads an int literal that fits a `u8`, after any whitespace. Another int is refused at its
    /// start.
    pub fn deserialize_u8(&mut self) -> (r: Result<u8, Error<DecodeError>>)
        requires
            old(self).wf(),
        ensures
            final(self).wf(),
            match (
                r,
                lex_bounded(old(self)@.input, old(self)@.position, 0, 0xFF, DecodeError::OutOfBoundsU8),
            ) {
                (Ok(v), Ok((n, end))) => v == n && final(self)@ == old(self)@.at(end),
                (Err(e), Err((at, why))) => e == failure(at, why) && final(self)@ == old(self)@,
                _ => false,
            },
    {
        match self.parse_bounded(0, 0xFF, DecodeError::OutOfBoundsU8) {
            Ok(n) => Ok(n as u8),
            Err(e) => Err(e),
        }
    }

    /// Reads an int literal that fits a `u16`, after any whitespace. Another int is refused at its
    /// start.
    pub fn deserialize_u16(&mut self) -> (r: Result<u16, Error<DecodeError>>)
        requires
            old(self).wf(),
        ensures
            final(self).wf(),
            match (
                r,
                lex_bounded(old(self)@.input, old(self)@.position, 0, 0xFFFF, DecodeError::OutOfBoundsU16),
            ) {
                (Ok(v), Ok((n, end))) => v == n && final(self)@ == old(self)@.at(end),
                (Err(e), Err((at, why))) => e == failure(at, why) && final(self)@ == old(self)@,
                _ => false,
            },
    {
        match self.parse_bounded(0, 0xFFFF, DecodeError::OutOfBoundsU16) {
            Ok(n) => Ok(n as u16),
            Err(e) => Err(e),
        }
    }

    /// Reads an int literal that fits a `u32`, after any whitespace. Another int is refused at its
    /// start.
    pub fn deserialize_u32(&mut self) -> (r: Result<u32, Error<DecodeError>>)
        requires
            old(self).wf(),
        ensures
            final(self).wf(),
            match (
                r,
                lex_bounded(old(self)@.input, old(self)@.position, 0, 0xFFFF_FFFF, DecodeError::OutOfBoundsU32),
            ) {
                (Ok(v), Ok((n, end))) => v == n && final(self)@ == old(self)@.at(end),
                (Err(e), Err((at, why))) => e == failure(at, why) && final(self)@ == old(self)@,
                _ => false,
            },
    {
        match self.parse_bounded(0, 0xFFFF_FFFF, DecodeError::OutOfBoundsU32) {
            Ok(n) => Ok(n as u32),
            Err(e) => Err(e),
        }
    }

    /// Reads an int literal that is not negative, after any whitespace. Another int is refused at its
    /// start.
    pub fn deserialize_u64(&mut self) -> (r: Result<u64, Error<DecodeError>>)
        requires
            old(self).wf(),
        ensures
            final(self).wf(),
            match (
                r,
                lex_bounded(old(self)@.input, old(self)@.position, 0, 0x7FFF_FFFF_FFFF_FFFF, DecodeError::OutOfBoundsU64),
            ) {
                (Ok(v), Ok((n, end))) => v == n && final(self)@ == old(self)@.at(end),
                (Err(e), Err((at, why))) => e == failure(at, why) && final(self)@ == old(self)@,
                _ => false,
            },
    {
        match self.parse_bounded(0, 0x7FFF_FFFF_FFFF_FFFF, DecodeError::OutOfBoundsU64) {
            Ok(n) => Ok(n as u64),
            Err(e) => Err(e),
        }
    }

    /// Reads a float literal, after any whitespace.
    pub fn deserialize_f64(&mut self) -> (r: Result<FloatLiteral, Error<DecodeError>>)
        requires
            old(self).wf(),
        ensures
            final(self).wf(),
            match (r, lex_spaced_float(old(self)@.input, old(self)@.position)) {
                (Ok(v), Ok((f, end))) => v@ == f && final(self)@ == old(self)@.at(end),
                (Err(e), Err((at, why))) => e == failure(at, why) && final(self)@ == old(self)@,
                _ => false,
            },
    {
        let input = self.p.input();
        let p = match read_spaces(input, self.p.position()) {
            Err(e) => {
                return Err(e);
            },
            Ok((_, p)) => p,
        };
        match read_float(input, p) {
            Err(e) => Err(e),
            Ok((f, end)) => self.moved(end, f),
        }
    }

    /// Reads bytes: a byte string, a string, or an array of ints that are bytes.
    pub fn deserialize_bytes(&mut self) -> (r: Result<Vec<u8>, Error<DecodeError>>)
        requires
            old(self).wf(),
        ensures
            final(self).wf(),
            match (
                r,
                lex_bytes(old(self)@.input, old(self)@.position, DecodeError::ExpectedBytes),
            ) {
                (Ok(v), Ok((bytes, end))) => v@ == bytes && final(self)@ == old(self)@.at(end),
                (Err(e), Err((at, why))) => e == failure(at, why) && final(self)@ == old(self)@,
                _ => false,
            },
    {
        match read_bytes(self.p.input(), self.p.position(), DecodeError::ExpectedBytes) {
            Err(e) => Err(e),
            Ok((v, end)) => self.moved(end, v),
        }
    }

    /// Reads a string: a string, a byte string, or an array of ints that are bytes, and in
    /// each case UTF-8.
    pub fn deserialize_string(&mut self) -> (r: Result<String, Error<DecodeError>>)
        requires
            old(self).wf(),
        ensures
            final(self).wf(),
            match (r, lex_text(old(self)@.input, old(self)@.position)) {
                (Ok(v), Ok((bytes, end))) => encode_utf8(v@) == bytes && final(self)@
                    == old(self)@.at(end),
                (Err(e), Err((at, why))) => e == failure(at, why) && final(self)@ == old(self)@,
                _ => false,
            },
    {
        match read_text(self.p.input(), self.p.position()) {
            Err(e) => Err(e),
            Ok((v, end)) => self.moved(end, v),
        }
    }

    /// Reads a char: a string of exactly one char.
    pub fn deserialize_char(&mut self) -> (r: Result<char, Error<DecodeError>>)
        requires
            old(self).wf(),
        ensures
            final(self).wf(),
            match (r, lex_char(old(self)@.input, old(self)@.position)) {
                (Ok(c), Ok((n, end))) => c as u32 == n && final(self)@ == old(self)@.at(end),
                (Err(e), Err((at, why))) => e == failure(at, why) && final(self)@ == old(self)@,
                _ => false,
            },
    {
        match read_bytes(self.p.input(), self.p.position(), DecodeError::ExpectedUtf8String) {
            Err(e) => Err(e),
            Ok((bytes, end)) => {
                if !crate::utf8::is_utf8(bytes.as_slice()) {
                    return fail(end, DecodeError::Utf8StringUtf8);
                }
                let n = bytes.len();
                if n < 1 || n > 4 {
                    return fail(end, DecodeError::CharLength);
                }
                let b0 = bytes[0];
                let w: usize = if b0 < 0x80 {
                    1
                } else if 0xC0 <= b0 && b0 < 0xE0 {
                    2
                } else if 0xE0 <= b0 && b0 < 0xF0 {
                    3
                } else if 0xF0 <= b0 && b0 < 0xF8 {
                    4
                } else {
                    0
                };
                if w != n {
                    return fail(end, DecodeError::CharLength);
                }
                let v: u32 = if n == 1 {
                    b0 as u32
                } else if n == 2 {
                    (b0 % 0x20) as u32 * 0x40 + (bytes[1] % 0x40) as u32
                } else if n == 3 {
                    (b0 % 0x10) as u32 * 0x1000 + (bytes[1] % 0x40) as u32 * 0x40 + (bytes[2]
                        % 0x40) as u32
                } else {
                    (b0 % 0x08) as u32 * 0x4_0000 + (bytes[1] % 0x40) as u32 * 0x1000 + (bytes[2]
                        % 0x40) as u32 * 0x40 + (bytes[3] % 0x40) as u32
                };
                match char_from_u32(v) {
                    Some(c) => self.moved(end, c),
                    None => fail(end, DecodeError::CharLength),
                }
            },
        }
    }

    /// Reads the head of an option (see [`lex_option`]). After the value of `Some` the end
    /// of the map is to be read with `end_variant`.
    pub fn deserialize_option(&mut self) -> (r: Result<OptionHead, Error<DecodeError>>)
        requires
            old(self).wf(),
        ensures
            final(self).wf(),
            stepped(
                old(self)@,
                final(self)@,
                r,
                lex_option(old(self)@.input, old(self)@.position),
            ),
    {
        let input = self.p.input();
        let pos = self.p.position();
        let start = match read_spaces(input, pos) {
            Err(e) => {
                return Err(e);
            },
            Ok((_, p)) => p,
        };
        match read_tag(input, pos, DecodeError::ExpectedOption) {
            Err(e) => Err(e),
            Ok((EnumHead::Unit(tag), end)) => {
                if crate::compact::de::same_bytes(
                    tag.as_str().as_bytes(),
                    &[0x4E, 0x6F, 0x6E, 0x65],
                ) {
                    self.moved(end, OptionHead::Absent)
                } else {
                    fail(start, DecodeError::ExpectedOption)
                }
            },
            Ok((EnumHead::Data(tag), end)) => {
                if crate::compact::de::same_bytes(
                    tag.as_str().as_bytes(),
                    &[0x53, 0x6F, 0x6D, 0x65],
                ) {
                    self.moved(end, OptionHead::Present)
                } else {
                    fail(start, DecodeError::ExpectedOption)
                }
            },
            Ok((EnumHead::DataNil(tag), end)) => {
                if crate::compact::de::same_bytes(
                    tag.as_str().as_bytes(),
                    &[0x53, 0x6F, 0x6D, 0x65],
                ) {
                    self.moved(end, OptionHead::PresentNil)
                } else {
                    fail(start, DecodeError::ExpectedOption)
                }
            },
        }
    }

    /// Reads the head of a value of an enum (see [`lex_tag`]). After the data of a variant
    /// the end of the map is to be read with `end_variant`. What does not begin as a string,
    /// a map or a set is refused with `ExpectedEnum` and the name of the enum.
    pub fn deserialize_enum(&mut self, name: &str) -> (r: Result<EnumHead, Error<DecodeError>>)
        requires
            old(self).wf(),
        ensures
            final(self).wf(),
            r.is_err() ==> final(self)@ == old(self)@,
            match lex_tag(old(self)@.input, old(self)@.position, DecodeError::ExpectedEnumVariant) {
                Ok((t, end)) => r.is_ok() && r.unwrap().text() == t && final(self)@
                    == old(self)@.at(end),
                Err((at, why)) => if why == DecodeError::ExpectedEnumVariant {
                    r.is_err() && r.unwrap_err().position == at as usize && r.unwrap_err().reason
                        is Other && r.unwrap_err().reason->Other_0 is ExpectedEnum
                } else {
                    r == Err::<EnumHead, Error<DecodeError>>(failure(at, why))
                },
            },
    {
        match read_tag(self.p.input(), self.p.position(), DecodeError::ExpectedEnumVariant) {
            Ok((head, end)) => self.moved(end, head),
            Err(e) => {
                match e.reason {
                    Reason::Other(DecodeError::ExpectedEnumVariant) => fail(
                        e.position,
                        DecodeError::ExpectedEnum(name.to_owned()),
                    ),
                    _ => Err(e),
                }
            },
        }
    }

    /// Reads the end of a map of one entry, after the value of `Some` or the data of a
    /// variant (see [`lex_close`]).
    pub fn end_variant(&mut self) -> (r: Result<(), Error<DecodeError>>)
        requires
            old(self).wf(),
        ensures
            final(self).wf(),
            stepped(old(self)@, final(self)@, r, lex_close(old(self)@.input, old(self)@.position)),
    {
        match read_close(self.p.input(), self.p.position()) {
            Err(e) => Err(e),
            Ok((_, end)) => self.moved(end, ()),
        }
    }

    /// Reads the head of a sequence (see [`lex_seq`]). The items of an array are then read
    /// one by one, each after a call of `next_item` that gave `true`.
    pub fn deserialize_seq(&mut self) -> (r: Result<SeqHead, Error<DecodeError>>)
        requires
            old(self).wf(),
        ensures
            final(self).wf(),
            match (r, lex_seq(old(self)@.input, old(self)@.position)) {
                (Ok(v), Ok((t, end))) => v@ == t && final(self)@ == old(self)@.at(end),
                (Err(e), Err((at, why))) => e == failure(at, why) && final(self)@ == old(self)@,
                _ => false,
            },
    {
        let input = self.p.input();
        let len = input.len();
        let p = match read_spaces(input, self.p.position()) {
            Err(e) => {
                return Err(e);
            },
            Ok((_, p)) => p,
        };
        if p >= len {
            return fail(p, DecodeError::Eoi);
        }
        let b = input[p];
        if b == 0x5B {
            self.moved(p + 1, SeqHead::Open)
        } else if b == 0x22 || b == 0x40 {
            proof {
                assert(skip_spaces(input@, p as int) == Ok::<((), int), (int, DecodeError)>(
                    ((), p as int),
                ));
            }
            match read_bytes(input, p, DecodeError::ExpectedArray) {
                Err(e) => Err(e),
                Ok((bytes, end)) => self.moved(end, SeqHead::Bytes(bytes)),
            }
        } else {
            fail(p, DecodeError::ExpectedArray)
        }
    }

    /// Reads the head of a map (see [`lex_map`]). Its entries are then read one by one, each
    /// after a call of `next_item` that gave `true`; in a map, `colon` reads what stands
    /// between a key and its value.
    pub fn deserialize_map(&mut self) -> (r: Result<MapHead, Error<DecodeError>>)
        requires
            old(self).wf(),
        ensures
            final(self).wf(),
            stepped(old(self)@, final(self)@, r, lex_map(old(self)@.input, old(self)@.position)),
    {
        let input = self.p.input();
        let len = input.len();
        let p = match read_spaces(input, self.p.position()) {
            Err(e) => {
                return Err(e);
            },
            Ok((_, p)) => p,
        };
        if is_at(input, p, 0x40) && is_at(input, p + 1, 0x7B) {
            self.moved(p + 2, MapHead::Keys)
        } else if is_at(input, p, 0x7B) {
            self.moved(p + 1, MapHead::Entries)
        } else {
            fail(p, DecodeError::ExpectedMap)
        }
    }

    /// Says whether another item of the open collection follows, and moves to its start, or
    /// after the closing byte if none follows (see [`item_start`]). `first` says whether
    /// this is the place of the first item; `close` is `]` for an array and `}` else.
    pub fn next_item(&mut self, first: bool, close: u8) -> (r: Result<bool, Error<DecodeError>>)
        requires
            old(self).wf(),
        ensures
            final(self).wf(),
            match (r, item_start(old(self)@.input, old(self)@.position, first, close)) {
                (Ok(more), Ok((Some(p), _))) => more && final(self)@ == old(self)@.at(p),
                (Ok(more), Ok((None, end))) => !more && final(self)@ == old(self)@.at(end),
                (Err(e), Err((at, why))) => e == failure(at, why) && final(self)@ == old(self)@,
                _ => false,
            },
    {
        match read_item_start(self.p.input(), self.p.position(), first, close) {
            Err(e) => Err(e),
            Ok((Some(p), _)) => self.moved(p, true),
            Ok((None, end)) => self.moved(end, false),
        }
    }

    /// Reads the colon between a key and its value, after any whitespace.
    pub fn colon(&mut self) -> (r: Result<(), Error<DecodeError>>)
        requires
            old(self).wf(),
        ensures
            final(self).wf(),
            stepped(old(self)@, final(self)@, r, colon(old(self)@.input, old(self)@.position)),
    {
        match read_colon(self.p.input(), self.p.position()) {
            Err(e) => Err(e),
            Ok((_, end)) => self.moved(end, ()),
        }
    }
}

} // verus!

//! A cursor that reads the lexemes that all human-readable syntax shares: whitespace,
//! comments and numbers.
use crate::de::Encoding;
pub use crate::human::de::DecodeError;
use crate::human::de::{fail, failure, Lexed};
pub use crate::human::lex::Number;
use crate::human::lex::{
    comment_end, lex_float, lex_int, lex_number, read_float, read_int, read_number,
    read_spaces, skip_spaces, FloatLiteral,
};
use crate::parser_helper::{spec_is_ws, Cursor, Error, ParserHelper, Reason};
use crate::utf8::is_utf8;
use vstd::prelude::*;
use vstd::utf8::valid_utf8;

verus! {

/// A cursor over input in a given encoding.
pub struct GenericSyntaxHelper<'de> {
    p: ParserHelper<'de>,
    enc: Encoding,
}

impl<'de> View for GenericSyntaxHelper<'de> {
    type V = Cursor;

    closed spec fn view(&self) -> Cursor {
        self.p@
    }
}

/// What skipping whitespace gives in the given encoding: where whitespace may stand, the
/// offset after it (see `skip_spaces`); where it may not, the offset itself, and a failure
/// if whitespace or a comment begins there.
pub open spec fn spaces_in(s: Seq<u8>, pos: int, enc: Encoding) -> Lexed<()> {
    if enc.spec_allows_whitespace() {
        skip_spaces(s, pos)
    } else if 0 <= pos < s.len() && (spec_is_ws(s[pos]) || s[pos] == 0x23) {
        Err((pos, DecodeError::Whitespace))
    } else {
        Ok(((), pos))
    }
}

/// How a step of the helper went: it gave what the outcome says and stands at the end of
/// what it read, or it failed as the outcome says and stands where it stood.
pub open spec fn stepped<T>(
    pre: Cursor,
    post: Cursor,
    r: Result<T, Error<DecodeError>>,
    d: Lexed<T>,
) -> bool {
    match (r, d) {
        (Ok(v), Ok((sv, end))) => v == sv && post == pre.at(end),
        (Err(e), Err((at, why))) => e == failure(at, why) && post == pre,
        _ => false,
    }
}

impl<'de> GenericSyntaxHelper<'de> {
    /// The encoding that the input is in.
    pub closed spec fn encoding(&self) -> Encoding {
        self.enc
    }

    /// The helper is valid: its position lies within the input, or at its end.
    pub open spec fn wf(&self) -> bool {
        self@.wf()
    }

    pub fn new(input: &'de [u8], enc: Encoding) -> (h: Self)
        ensures
            h.wf(),
            h@.input == input@,
            h@.position == 0,
            h.encoding() == enc,
    {
        GenericSyntaxHelper { p: ParserHelper::new(input), enc }
    }

    /// The current byte offset.
    pub fn position(&self) -> (n: usize)
        ensures
            n == self@.position,
    {
        self.p.position()
    }

    fn moved<T>(&mut self, end: usize, v: T) -> (r: Result<T, Error<DecodeError>>)
        requires
            old(self).wf(),
            old(self)@.position <= end <= old(self)@.input.len(),
        ensures
            r == Ok::<T, Error<DecodeError>>(v),
            final(self)@ == old(self)@.at(end as int),
            final(self).wf(),
            final(self).encoding() == old(self).encoding(),
    {
        let by = end - self.p.position();
        self.p.advance(by);
        Ok(v)
    }

    /// Skips whitespace and comments where the encoding has them, and refuses them where it
    /// has not.
    pub fn spaces(&mut self) -> (r: Result<(), Error<DecodeError>>)
        requires
            old(self).wf(),
        ensures
            final(self).wf(),
            final(self).encoding() == old(self).encoding(),
            stepped(
                old(self)@,
                final(self)@,
                r,
                spaces_in(old(self)@.input, old(self)@.position, old(self).encoding()),
            ),
    {
        let pos = self.p.position();
        if self.enc.allows_whitespace() {
            match read_spaces(self.p.input(), pos) {
                Err(e) => Err(e),
                Ok((_, end)) => self.moved(end, ()),
            }
        } else {
            match self.p.peek_or_end() {
                Some(b) => {
                    if b == 0x09 || b == 0x0a || b == 0x0d || b == 0x20 || b == 0x23 {
                        fail(pos, DecodeError::Whitespace)
                    } else {
                        self.moved(pos, ())
                    }
                },
                None => self.moved(pos, ()),
            }
        }
    }

    /// Skips the comment that begins at the position, up to and with the next newline or up
    /// to the end of the input. A comment that is not UTF-8 is refused at its start.
    pub fn comment(&mut self) -> (r: Result<(), Error<DecodeError>>)
        requires
            old(self).wf(),
            old(self)@.position < old(self)@.input.len(),
        ensures
            final(self).wf(),
            final(self).encoding() == old(self).encoding(),
            ({
                let s = old(self)@.input;
                let pos = old(self)@.position;
                let end = comment_end(s, pos + 1);
                if valid_utf8(s.subrange(pos, end)) {
                    r == Ok::<(), Error<DecodeError>>(()) && final(self)@ == old(self)@.at(end)
                } else {
                    r == Err::<(), Error<DecodeError>>(failure(pos, DecodeError::CommentUtf8))
                        && final(self)@ == old(self)@
                }
            }),
    {
        let input = self.p.input();
        let len = input.len();
        let start = self.p.position();
        let mut q: usize = start + 1;
        while q < len && input[q] != 0x0a
            invariant
                start < q <= len,
                len == input@.len(),
                comment_end(input@, start + 1) == comment_end(input@, q as int),
            decreases len - q,
        {
            q = q + 1;
        }
        if q < len {
            q = q + 1;
        }
        if is_utf8(vstd::slice::slice_subrange(input, start, q)) {
            self.moved(q, ())
        } else {
            fail(start, DecodeError::CommentUtf8)
        }
    }

    /// Skips whitespace as `spaces` does, then gives the next byte without moving over it.
    /// At the end of the input it fails with the reason `UnexpectedEndOfInput`.
    pub fn peek_spaces(&mut self) -> (r: Result<u8, Error<DecodeError>>)
        requires
            old(self).wf(),
        ensures
            final(self).wf(),
            final(self).encoding() == old(self).encoding(),
            match spaces_in(old(self)@.input, old(self)@.position, old(self).encoding()) {
                Ok((_, end)) => final(self)@ == old(self)@.at(end) && (match final(self)@.peek() {
                    Some(b) => r == Ok::<u8, Error<DecodeError>>(b),
                    None => r == Err::<u8, Error<DecodeError>>(
                        Error { position: end as usize, reason: Reason::UnexpectedEndOfInput },
                    ),
                }),
                Err((at, why)) => r == Err::<u8, Error<DecodeError>>(failure(at, why))
                    && final(self)@ == old(self)@,
            },
    {
        match self.spaces() {
            Err(e) => Err(e),
            Ok(()) => self.p.peek(),
        }
    }

    /// Reads an int literal (see [`lex_int`]).
    pub fn parse_int(&mut self) -> (r: Result<i64, Error<DecodeError>>)
        requires
            old(self).wf(),
        ensures
            final(self).wf(),
            final(self).encoding() == old(self).encoding(),
            match (r, lex_int(old(self)@.input, old(self)@.position)) {
                (Ok(v), Ok((n, end))) => v == n && final(self)@ == old(self)@.at(end),
                (Err(e), Err((at, why))) => e == failure(at, why) && final(self)@ == old(self)@,
                _ => false,
            },
    {
        match read_int(self.p.input(), self.p.position()) {
            Err(e) => Err(e),
            Ok((n, end)) => self.moved(end, n),
        }
    }

    /// Reads a float literal (see [`lex_float`]).
    pub fn parse_float(&mut self) -> (r: Result<FloatLiteral, Error<DecodeError>>)
        requires
            old(self).wf(),
        ensures
            final(self).wf(),
            final(self).encoding() == old(self).encoding(),
            match (r, lex_float(old(self)@.input, old(self)@.position)) {
                (Ok(v), Ok((f, end))) => v@ == f && final(self)@ == old(self)@.at(end),
                (Err(e), Err((at, why))) => e == failure(at, why) && final(self)@ == old(self)@,
                _ => false,
            },
    {
        match read_float(self.p.input(), self.p.position()) {
            Err(e) => Err(e),
            Ok((f, end)) => self.moved(end, f),
        }
    }

    /// Reads a number literal: a float or an int (see [`lex_number`]).
    pub fn parse_number(&mut self) -> (r: Result<Number, Error<DecodeError>>)
        requires
            old(self).wf(),
        ensures
            final(self).wf(),
            final(self).encoding() == old(self).encoding(),
            match (r, lex_number(old(self)@.input, old(self)@.position)) {
                (Ok(v), Ok((f, end))) => v@ == f && final(self)@ == old(self)@.at(end),
                (Err(e), Err((at, why))) => e == failure(at, why) && final(self)@ == old(self)@,
                _ => false,
            },
    {
        match read_number(self.p.input(), self.p.position()) {
            Err(e) => Err(e),
            Ok((f, end)) => self.moved(end, f),
        }
    }
}

} // verus!

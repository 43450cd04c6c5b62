//! A cursor over a borrowed byte slice, with position-tagged errors.
use vstd::prelude::*;
use vstd::slice::slice_subrange;

verus! {

/// Why a parse failed: the input ended, or a reason of the caller's own.
#[derive(Debug, PartialEq, Eq, PartialOrd, Ord, Hash, Clone, Copy)]
pub enum Reason<E> {
    UnexpectedEndOfInput,
    Other(E),
}

/// A parse error: a reason tagged with the byte offset it refers to.
#[derive(Debug, PartialEq, Eq, PartialOrd, Ord, Hash, Clone, Copy)]
pub struct Error<E> {
    pub position: usize,
    pub reason: Reason<E>,
}

impl<E> Error<E> {
    /// An error with a reason of the caller's own.
    pub fn new(position: usize, reason: E) -> (e: Self)
        ensures
            e == (Error { position, reason: Reason::Other(reason) }),
    {
        Error { position, reason: Reason::Other(reason) }
    }

    /// The error for input that ended too early.
    pub fn unexpected_end_of_input(position: usize) -> (e: Self)
        ensures
            e == (Error::<E> { position, reason: Reason::UnexpectedEndOfInput }),
    {
        Error { position, reason: Reason::UnexpectedEndOfInput }
    }
}

/// What a `ParserHelper` stands for: the whole input and an offset into it.
pub struct Cursor {
    pub input: Seq<u8>,
    pub position: int,
}

/// A cursor over a slice of input bytes. The position never passes the end of the input.
pub struct ParserHelper<'a> {
    input: &'a [u8],
    position: usize,
}

impl<'a> View for ParserHelper<'a> {
    type V = Cursor;

    closed spec fn view(&self) -> Cursor {
        Cursor { input: self.input@, position: self.position as int }
    }
}

/// Whether `s` begins with `prefix`.
pub open spec fn starts_with(s: Seq<u8>, prefix: Seq<u8>) -> bool {
    prefix.len() <= s.len() && s.subrange(0, prefix.len() as int) == prefix
}

impl Cursor {
    /// The position lies within the input, or at its end.
    pub open spec fn wf(self) -> bool {
        0 <= self.position <= self.input.len()
    }

    /// The input from the position on.
    pub open spec fn rest(self) -> Seq<u8> {
        self.input.subrange(self.position, self.input.len() as int)
    }

    /// The same input, at another position.
    pub open spec fn at(self, position: int) -> Cursor {
        Cursor { input: self.input, position }
    }

    /// The next byte, if there is one.
    pub open spec fn peek(self) -> Option<u8> {
        if self.position < self.input.len() {
            Some(self.input[self.position])
        } else {
            None
        }
    }
}

/// The first offset at or after `from` whose byte does not satisfy `pred`, or the end of `s`.
pub open spec fn skip_end(s: Seq<u8>, from: int, pred: spec_fn(u8) -> bool) -> int
    decreases s.len() - from,
{
    if 0 <= from < s.len() && pred(s[from]) {
        skip_end(s, from + 1, pred)
    } else {
        from
    }
}

impl<'a> ParserHelper<'a> {
    /// The cursor is valid: its position lies within the input, or at its end.
    pub open spec fn wf(&self) -> bool {
        self@.wf()
    }

    /// Parses from a slice of bytes.
    pub fn new(input: &'a [u8]) -> (p: Self)
        ensures
            p.wf(),
            p@.input == input@,
            p@.position == 0,
    {
        ParserHelper { input, position: 0 }
    }

    /// The whole input.
    pub fn input(&self) -> (s: &'a [u8])
        ensures
            s@ == self@.input,
    {
        self.input
    }

    /// The total length of the input.
    pub fn len(&self) -> (n: usize)
        ensures
            n == self@.input.len(),
    {
        self.input.len()
    }

    /// A slice of the whole input.
    pub fn slice(&self, start: usize, end: usize) -> (s: &'a [u8])
        requires
            start <= end <= self@.input.len(),
        ensures
            s@ == self@.input.subrange(start as int, end as int),
    {
        slice_subrange(self.input, start, end)
    }

    /// The part of the input that is yet to be parsed.
    pub fn rest(&self) -> (s: &'a [u8])
        requires
            self.wf(),
        ensures
            s@ == self@.rest(),
    {
        slice_subrange(self.input, self.position, self.input.len())
    }

    /// The current byte offset.
    pub fn position(&self) -> (n: usize)
        ensures
            n == self@.position,
    {
        self.position
    }

    /// An error with the given reason at the current position.
    pub fn fail<T, E>(&self, reason: E) -> (r: Result<T, Error<E>>)
        ensures
            r == Err::<T, Error<E>>(
                Error { position: self@.position as usize, reason: Reason::Other(reason) },
            ),
    {
        self.fail_at_position(reason, self.position)
    }

    /// An error with the given reason at the given position.
    pub fn fail_at_position<T, E>(&self, reason: E, position: usize) -> (r: Result<T, Error<E>>)
        ensures
            r == Err::<T, Error<E>>(Error { position, reason: Reason::Other(reason) }),
    {
        Err(Error::new(position, reason))
    }

    /// The error for input that ended too early, at the current position.
    pub fn unexpected_end_of_input<T, E>(&self) -> (r: Result<T, Error<E>>)
        ensures
            r == Err::<T, Error<E>>(
                Error { position: self@.position as usize, reason: Reason::UnexpectedEndOfInput },
            ),
    {
        Err(Error::unexpected_end_of_input(self.position))
    }

    /// Advances by `offset` bytes, which must be there.
    pub fn advance(&mut self, offset: usize)
        requires
            old(self).wf(),
            old(self)@.position + offset <= old(self)@.input.len(),
        ensures
            final(self)@ == old(self)@.at(old(self)@.position + offset),
            final(self).wf(),
    {
        let len = self.input.len();
        assert(self.position + offset <= len);
        self.position = self.position + offset;
    }

    /// Advances over `expected` if the rest of the input starts with it, and says whether it did.
    pub fn advance_over(&mut self, expected: &[u8]) -> (advanced: bool)
        requires
            old(self).wf(),
        ensures
            advanced == starts_with(old(self)@.rest(), expected@),
            final(self).wf(),
            final(self)@ == old(self)@.at(
                if advanced {
                    old(self)@.position + expected@.len()
                } else {
                    old(self)@.position
                },
            ),
    {
        if self.rest_starts_with(expected) {
            let len = self.input.len();
            assert(self.position + expected@.len() <= len);
            self.position = self.position + expected.len();
            true
        } else {
            false
        }
    }

    /// Whether the rest of the input starts with `expected`.
    fn rest_starts_with(&self, expected: &[u8]) -> (r: bool)
        requires
            self.wf(),
        ensures
            r == starts_with(self@.rest(), expected@),
    {
        let n = expected.len();
        let len = self.input.len();
        if n > len - self.position {
            return false;
        }
        let mut i: usize = 0;
        while i < n
            invariant
                self.wf(),
                n == expected@.len(),
                n <= self@.input.len() - self@.position,
                len == self@.input.len(),
                0 <= i <= n,
                forall|j: int| 0 <= j < i ==> self@.rest()[j] == expected@[j],
            decreases n - i,
        {
            if self.input[self.position + i] != expected[i] {
                assert(self@.rest().subrange(0, n as int)[i as int] != expected@[i as int]);
                return false;
            }
            i = i + 1;
        }
        assert(self@.rest().subrange(0, n as int) =~= expected@);
        true
    }

    /// Advances by `offset` bytes. If the input is too short for that, fails with the given
    /// reason at the position before the call, and stays there.
    pub fn advance_or<E>(&mut self, offset: usize, e: E) -> (r: Result<(), Error<E>>)
        requires
            old(self).wf(),
        ensures
            final(self).wf(),
            old(self)@.position + offset <= old(self)@.input.len() ==> r == Ok::<(), Error<E>>(())
                && final(self)@ == old(self)@.at(old(self)@.position + offset),
            old(self)@.position + offset > old(self)@.input.len() ==> r == Err::<(), Error<E>>(
                Error { position: old(self)@.position as usize, reason: Reason::Other(e) },
            ) && final(self)@ == old(self)@,
    {
        let start = self.position;
        if offset > self.input.len() - self.position {
            self.fail_at_position(e, start)
        } else {
            self.position = self.position + offset;
            Ok(())
        }
    }

    /// Consumes the next byte and returns it.
    pub fn next<E>(&mut self) -> (r: Result<u8, Error<E>>)
        requires
            old(self).wf(),
        ensures
            final(self).wf(),
            match old(self)@.peek() {
                Some(b) => r == Ok::<u8, Error<E>>(b) && final(self)@ == old(self)@.at(
                    old(self)@.position + 1,
                ),
                None => r == Err::<u8, Error<E>>(
                    Error {
                        position: old(self)@.position as usize,
                        reason: Reason::UnexpectedEndOfInput,
                    },
                ) && final(self)@ == old(self)@,
            },
    {
        if self.position < self.input.len() {
            let c = self.input[self.position];
            self.position = self.position + 1;
            Ok(c)
        } else {
            self.unexpected_end_of_input()
        }
    }

    /// Consumes the next byte and returns it, or signals the end of the input as `None`.
    pub fn next_or_end(&mut self) -> (r: Option<u8>)
        requires
            old(self).wf(),
        ensures
            final(self).wf(),
            r == old(self)@.peek(),
            final(self)@ == old(self)@.at(
                if r.is_some() {
                    old(self)@.position + 1
                } else {
                    old(self)@.position
                },
            ),
    {
        if self.position < self.input.len() {
            let c = self.input[self.position];
            self.position = self.position + 1;
            Some(c)
        } else {
            None
        }
    }

    /// Consumes the expected byte. Fails with the given reason, at the byte's position, if the
    /// next byte is another one; that byte is consumed all the same.
    pub fn expect<E>(&mut self, expected: u8, err: E) -> (r: Result<(), Error<E>>)
        requires
            old(self).wf(),
        ensures
            final(self).wf(),
            match old(self)@.peek() {
                Some(b) => final(self)@ == old(self)@.at(old(self)@.position + 1) && r == (if b
                    == expected {
                    Ok::<(), Error<E>>(())
                } else {
                    Err::<(), Error<E>>(
                        Error { position: old(self)@.position as usize, reason: Reason::Other(err) },
                    )
                }),
                None => r == Err::<(), Error<E>>(
                    Error {
                        position: old(self)@.position as usize,
                        reason: Reason::UnexpectedEndOfInput,
                    },
                ) && final(self)@ == old(self)@,
            },
    {
        let pos = self.position;
        match self.next_or_end() {
            None => self.unexpected_end_of_input(),
            Some(b) => {
                if b == expected {
                    Ok(())
                } else {
                    self.fail_at_position(err, pos)
                }
            },
        }
    }

    /// Same as `expect`, with a predicate in place of the expected byte.
    pub fn expect_pred<E, F: Fn(u8) -> bool>(&mut self, pred: F, err: E) -> (r: Result<
        (),
        Error<E>,
    >)
        requires
            old(self).wf(),
            forall|b: u8| pred.requires((b,)),
        ensures
            final(self).wf(),
            match old(self)@.peek() {
                Some(b) => final(self)@ == old(self)@.at(old(self)@.position + 1) && (r == Ok::<
                    (),
                    Error<E>,
                >(()) || r == Err::<(), Error<E>>(
                    Error { position: old(self)@.position as usize, reason: Reason::Other(err) },
                )) && pred.ensures((b,), r.is_ok()),
                None => r == Err::<(), Error<E>>(
                    Error {
                        position: old(self)@.position as usize,
                        reason: Reason::UnexpectedEndOfInput,
                    },
                ) && final(self)@ == old(self)@,
            },
    {
        let pos = self.position;
        match self.next_or_end() {
            None => self.unexpected_end_of_input(),
            Some(b) => {
                if pred(b) {
                    Ok(())
                } else {
                    self.fail_at_position(err, pos)
                }
            },
        }
    }

    /// Returns the next byte without consuming it.
    pub fn peek<E>(&self) -> (r: Result<u8, Error<E>>)
        requires
            self.wf(),
        ensures
            match self@.peek() {
                Some(b) => r == Ok::<u8, Error<E>>(b),
                None => r == Err::<u8, Error<E>>(
                    Error {
                        position: self@.position as usize,
                        reason: Reason::UnexpectedEndOfInput,
                    },
                ),
            },
    {
        if self.position < self.input.len() {
            Ok(self.input[self.position])
        } else {
            self.unexpected_end_of_input()
        }
    }

    /// Returns the next byte without consuming it, or signals the end of the input as `None`.
    pub fn peek_or_end(&self) -> (r: Option<u8>)
        requires
            self.wf(),
        ensures
            r == self@.peek(),
    {
        if self.position < self.input.len() {
            Some(self.input[self.position])
        } else {
            None
        }
    }

    /// Skips bytes for as long as the predicate holds of them.
    pub fn skip<F: Fn(u8) -> bool>(&mut self, pred: F)
        requires
            old(self).wf(),
            forall|b: u8| pred.requires((b,)),
        ensures
            final(self).wf(),
            final(self)@.input == old(self)@.input,
            old(self)@.position <= final(self)@.position,
            forall|i: int|
                old(self)@.position <= i < final(self)@.position ==> pred.ensures(
                    (#[trigger] old(self)@.input[i],),
                    true,
                ),
            final(self)@.position < final(self)@.input.len() ==> pred.ensures(
                (final(self)@.input[final(self)@.position],),
                false,
            ),
    {
        loop
            invariant
                self.wf(),
                self@.input == old(self)@.input,
                old(self)@.position <= self@.position,
                forall|b: u8| pred.requires((b,)),
                forall|i: int|
                    old(self)@.position <= i < self@.position ==> pred.ensures(
                        (#[trigger] old(self)@.input[i],),
                        true,
                    ),
            decreases self@.input.len() - self@.position,
        {
            match self.peek_or_end() {
                None => return ,
                Some(peeked) => {
                    if pred(peeked) {
                        let len = self.input.len();
                        assert(self.position < len);
                        self.position = self.position + 1;
                    } else {
                        return ;
                    }
                },
            }
        }
    }

    /// Skips spaces, tabs, newlines and carriage returns.
    pub fn skip_ws(&mut self)
        requires
            old(self).wf(),
        ensures
            final(self).wf(),
            final(self)@ == old(self)@.at(
                skip_end(old(self)@.input, old(self)@.position, |b: u8| spec_is_ws(b)),
            ),
    {
        loop
            invariant
                self.wf(),
                self@.input == old(self)@.input,
                old(self)@.position <= self@.position,
                skip_end(old(self)@.input, old(self)@.position, |b: u8| spec_is_ws(b)) == skip_end(
                    self@.input,
                    self@.position,
                    |b: u8| spec_is_ws(b),
                ),
            decreases self@.input.len() - self@.position,
        {
            match self.peek_or_end() {
                None => return ,
                Some(peeked) => {
                    if is_ws(peeked) {
                        let len = self.input.len();
                        assert(self.position < len);
                        self.position = self.position + 1;
                    } else {
                        return ;
                    }
                },
            }
        }
    }

    /// Skips whitespace, then returns the next byte without consuming it.
    pub fn peek_ws<E>(&mut self) -> (r: Result<u8, Error<E>>)
        requires
            old(self).wf(),
        ensures
            final(self).wf(),
            final(self)@ == old(self)@.at(
                skip_end(old(self)@.input, old(self)@.position, |b: u8| spec_is_ws(b)),
            ),
            match final(self)@.peek() {
                Some(b) => r == Ok::<u8, Error<E>>(b),
                None => r == Err::<u8, Error<E>>(
                    Error {
                        position: final(self)@.position as usize,
                        reason: Reason::UnexpectedEndOfInput,
                    },
                ),
            },
    {
        self.skip_ws();
        self.peek()
    }

    /// Skips whitespace, then consumes the expected byte as `expect` does.
    pub fn expect_ws<E>(&mut self, exp: u8, err: E) -> (r: Result<(), Error<E>>)
        requires
            old(self).wf(),
        ensures
            final(self).wf(),
            ({
                let mid = old(self)@.at(
                    skip_end(old(self)@.input, old(self)@.position, |b: u8| spec_is_ws(b)),
                );
                match mid.peek() {
                    Some(b) => final(self)@ == mid.at(mid.position + 1) && r == (if b == exp {
                        Ok::<(), Error<E>>(())
                    } else {
                        Err::<(), Error<E>>(
                            Error { position: mid.position as usize, reason: Reason::Other(err) },
                        )
                    }),
                    None => r == Err::<(), Error<E>>(
                        Error {
                            position: mid.position as usize,
                            reason: Reason::UnexpectedEndOfInput,
                        },
                    ) && final(self)@ == mid,
                }
            }),
    {
        self.skip_ws();
        self.expect(exp, err)
    }

    /// Consumes the given bytes if the rest of the input starts with them; else fails with the
    /// given reason at the current position, and stays there.
    pub fn expect_bytes<E>(&mut self, exp: &[u8], err: E) -> (r: Result<(), Error<E>>)
        requires
            old(self).wf(),
        ensures
            final(self).wf(),
            starts_with(old(self)@.rest(), exp@) ==> r == Ok::<(), Error<E>>(()) && final(self)@
                == old(self)@.at(old(self)@.position + exp@.len()),
            !starts_with(old(self)@.rest(), exp@) ==> r == Err::<(), Error<E>>(
                Error { position: old(self)@.position as usize, reason: Reason::Other(err) },
            ) && final(self)@ == old(self)@,
    {
        if self.rest_starts_with(exp) {
            let len = self.input.len();
            assert(self.position + exp@.len() <= len);
            self.position = self.position + exp.len();
            Ok(())
        } else {
            self.fail(err)
        }
    }
}

/// Space, tab, newline or carriage return.
pub open spec fn spec_is_ws(byte: u8) -> bool {
    byte == 0x09 || byte == 0x0A || byte == 0x0D || byte == 0x20
}

/// An ASCII decimal digit.
pub open spec fn spec_is_digit(byte: u8) -> bool {
    0x30 <= byte <= 0x39
}

/// An ASCII hexadecimal digit, in either case.
pub open spec fn spec_is_hex_digit(byte: u8) -> bool {
    0x30 <= byte <= 0x39 || 0x41 <= byte <= 0x46 || 0x61 <= byte <= 0x66
}

/// `0` or `1`.
pub open spec fn spec_is_binary_digit(byte: u8) -> bool {
    byte == 0x30 || byte == 0x31
}

/// Space (0x20), tab, newline, or carriage return.
#[verifier::when_used_as_spec(spec_is_ws)]
pub fn is_ws(byte: u8) -> (r: bool)
    ensures
        r == spec_is_ws(byte),
{
    byte == 0x09 || byte == 0x0A || byte == 0x0D || byte == 0x20
}

#[verifier::when_used_as_spec(spec_is_digit)]
pub fn is_digit(byte: u8) -> (r: bool)
    ensures
        r == spec_is_digit(byte),
{
    0x30 <= byte && byte <= 0x39
}

#[verifier::when_used_as_spec(spec_is_hex_digit)]
pub fn is_hex_digit(byte: u8) -> (r: bool)
    ensures
        r == spec_is_hex_digit(byte),
{
    (0x30 <= byte && byte <= 0x39) || (0x41 <= byte && byte <= 0x46) || (0x61 <= byte && byte
        <= 0x66)
}

#[verifier::when_used_as_spec(spec_is_binary_digit)]
pub fn is_binary_digit(byte: u8) -> (r: bool)
    ensures
        r == spec_is_binary_digit(byte),
{
    byte == 0x30 || byte == 0x31
}

pub fn is_digit_or_underscore(byte: u8) -> (r: bool)
    ensures
        r == (byte == 0x5F || spec_is_digit(byte)),
{
    byte == 0x5F || is_digit(byte)
}

pub fn is_hex_digit_or_underscore(byte: u8) -> (r: bool)
    ensures
        r == (byte == 0x5F || spec_is_hex_digit(byte)),
{
    byte == 0x5F || is_hex_digit(byte)
}

pub fn is_binary_digit_or_underscore(byte: u8) -> (r: bool)
    ensures
        r == (byte == 0x5F || spec_is_binary_digit(byte)),
{
    byte == 0x5F || is_binary_digit(byte)
}

} // verus!

//! The decoder of the compact encoding, in its permissive and its canonic mode.
use crate::compact::wire::{
    be_value, count_width, int_width, lemma_be_bytes_of_value, lemma_pow256, read_be, signed_of,
    to_signed, width_of_arg, MAX_COUNT,
};
use crate::entries::{insert, insert_entry, lemma_insert_wf};
use crate::order::{entries_wf, order, Order};
use crate::parser_helper::{Cursor, Error, ParserHelper, Reason};
use crate::utf8::{char_from_u32, is_scalar, string_from_utf8};
use vstd::utf8::{encode_utf8, valid_utf8};
use crate::value::{
    float_is_nan, is_nan, normal_bits, tree_entries, trees, Tree, Value, NAN_BITS,
};
use vstd::prelude::*;

verus! {

/// The rule of the canonic encoding that an input breaks.
#[derive(Debug, PartialEq, Eq, Clone, Copy, Structural)]
pub enum CanonicityError {
    /// Nil with an argument other than zero.
    NilArgument,
    /// An int in more bytes than it needs.
    IntTooWide,
    /// A count in more bytes than it needs.
    CountTooWide,
    /// A NaN with bits other than all ones.
    NaN,
    /// A byte string: the canonic encoding writes an array of ints.
    ByteString,
    /// A set: the canonic encoding writes a map.
    SetTag,
    /// A key that is not above the key before it.
    KeyOrder,
}

/// Everything that can go wrong during decoding of the compact encoding.
#[derive(Debug, PartialEq, Eq, Clone)]
pub enum DecodeError {
    /// The input ended within a value.
    Eoi,
    /// A message of the caller's own; the decoder itself never gives it.
    Message(String),
    OutOfBoundsI8,
    OutOfBoundsI16,
    OutOfBoundsI32,
    OutOfBoundsI64,
    OutOfBoundsU8,
    OutOfBoundsU16,
    OutOfBoundsU32,
    OutOfBoundsU64,
    OutOfBoundsChar,
    /// A byte string of more than 2^63 - 1 bytes.
    OutOfBoundsString,
    /// An array of more than 2^63 - 1 items.
    OutOfBoundsArray,
    /// A set of more than 2^63 - 1 items.
    OutOfBoundsSet,
    /// A map of more than 2^63 - 1 entries.
    OutOfBoundsMap,
    /// Bytes asked for as a string are not UTF-8.
    Utf8,
    /// A set where the values of the map asked for cannot be nil.
    InvalidSet,
    ExpectedNil,
    ExpectedBool,
    ExpectedFloat,
    ExpectedInt,
    ExpectedOption,
    ExpectedString,
    ExpectedBytes,
    ExpectedArray,
    ExpectedMap,
    ExpectedEnum(String),
    ExpectedEnumVariant,
    /// The input is a compact encoding, but not the canonic one.
    Canonicity(CanonicityError),
}

/// What decoding gives in contracts: a result and the offset after it, or the offset
/// and reason of a failure.
pub type Outcome<T> = Result<(T, int), (int, DecodeError)>;

/// The number announced by the tag byte at `pos`: the number itself, the count of the bytes
/// that hold it after the tag byte, and the offset after them.
pub open spec fn decode_number(s: Seq<u8>, pos: int) -> Outcome<(nat, nat)>
    recommends
        0 <= pos < s.len(),
{
    let arg = (s[pos] % 32) as int;
    let w = width_of_arg(arg);
    if w == 0 {
        Ok(((arg as nat, 0), pos + 1))
    } else if pos + 1 + w > s.len() {
        Err((pos + 1, DecodeError::Eoi))
    } else {
        Ok(((be_value(s.subrange(pos + 1, pos + 1 + w)), w), pos + 1 + w))
    }
}

/// The int at `pos`. The canonic mode refuses an int in more bytes than it needs, at the
/// offset of the first of those bytes.
pub open spec fn decode_int(s: Seq<u8>, pos: int, canonic: bool) -> Outcome<int> {
    if !(0 <= pos < s.len()) {
        Err((pos, DecodeError::Eoi))
    } else if s[pos] / 32 != 3 {
        Err((pos, DecodeError::ExpectedInt))
    } else {
        match decode_number(s, pos) {
            Err(e) => Err(e),
            Ok(((u, w), end)) => {
                let n = if w == 0 {
                    u as int
                } else {
                    signed_of(u, w)
                };
                if canonic && int_width(n) != w {
                    Err((pos + 1, DecodeError::Canonicity(CanonicityError::IntTooWide)))
                } else {
                    Ok((n, end))
                }
            },
        }
    }
}

/// The count at `pos` under the tag with the given major number. The canonic mode refuses a
/// count in more bytes than it needs, at the offset of the first of those bytes; a count
/// above 2^63 - 1 is refused at the offset after it.
pub open spec fn decode_count(
    s: Seq<u8>,
    pos: int,
    canonic: bool,
    major: int,
    expected: DecodeError,
    out_of_bounds: DecodeError,
) -> Outcome<nat> {
    if !(0 <= pos < s.len()) {
        Err((pos, DecodeError::Eoi))
    } else if s[pos] / 32 != major {
        Err((pos, expected))
    } else {
        match decode_number(s, pos) {
            Err(e) => Err(e),
            Ok(((u, w), end)) => {
                if canonic && count_width(u) != w {
                    Err((pos + 1, DecodeError::Canonicity(CanonicityError::CountTooWide)))
                } else if u > MAX_COUNT {
                    Err((end, out_of_bounds))
                } else {
                    Ok((u, end))
                }
            },
        }
    }
}

/// The array of ints that a byte string stands for.
pub open spec fn byte_items(bytes: Seq<u8>) -> Seq<Tree> {
    Seq::new(bytes.len(), |i: int| Tree::Int(bytes[i] as i64))
}

/// The value at `pos` and the offset after it, or the offset and reason of the failure.
///
/// The first byte holds the kind of the value in its upper three bits and an argument in its
/// lower five. Nil takes any argument; a bool the arguments 0 and 1; a float the argument 0
/// and eight bytes; an int, a byte string, an array, a set and a map a number (see
/// `decode_number`). A byte string stands for the array of its bytes, a set for the map of
/// its items to nil. Of two entries with the same key the later one stays.
///
/// The canonic mode accepts of these encodings only the one that `canonic` gives.
pub open spec fn decode(s: Seq<u8>, pos: int, canonic: bool) -> Outcome<Tree>
    decreases s.len() - pos, 0nat,
{
    if !(0 <= pos < s.len()) {
        Err((pos, DecodeError::Eoi))
    } else {
        let major = s[pos] / 32;
        let arg = s[pos] % 32;
        if major == 0 {
            if canonic && arg != 0 {
                Err((pos, DecodeError::Canonicity(CanonicityError::NilArgument)))
            } else {
                Ok((Tree::Nil, pos + 1))
            }
        } else if major == 1 {
            if arg == 0 {
                Ok((Tree::Bool(false), pos + 1))
            } else if arg == 1 {
                Ok((Tree::Bool(true), pos + 1))
            } else {
                Err((pos, DecodeError::ExpectedBool))
            }
        } else if major == 2 {
            match decode_float(s, pos, canonic) {
                Ok((bits, end)) => Ok((Tree::Float(normal_bits(bits)), end)),
                Err(e) => Err(e),
            }
        } else if major == 3 {
            match decode_int(s, pos, canonic) {
                Ok((n, end)) => Ok((Tree::Int(n as i64), end)),
                Err(e) => Err(e),
            }
        } else if major == 4 {
            match decode_bytes(s, pos, canonic) {
                Ok((bytes, end)) => Ok((Tree::Array(byte_items(bytes)), end)),
                Err(e) => Err(e),
            }
        } else if major == 5 {
            match decode_count(
                s,
                pos,
                canonic,
                5,
                DecodeError::ExpectedArray,
                DecodeError::OutOfBoundsArray,
            ) {
                Err(e) => Err(e),
                Ok((n, p)) => match decode_items(s, p, n, canonic, Seq::empty()) {
                    Ok((xs, end)) => Ok((Tree::Array(xs), end)),
                    Err(e) => Err(e),
                },
            }
        } else if major == 6 {
            if canonic {
                Err((pos, DecodeError::Canonicity(CanonicityError::SetTag)))
            } else {
                match decode_count(
                    s,
                    pos,
                    canonic,
                    6,
                    DecodeError::ExpectedMap,
                    DecodeError::OutOfBoundsSet,
                ) {
                    Err(e) => Err(e),
                    Ok((n, p)) => match decode_entries(s, p, n, canonic, true, Seq::empty()) {
                        Ok((es, end)) => Ok((Tree::Mapping(es), end)),
                        Err(e) => Err(e),
                    },
                }
            }
        } else {
            match decode_count(
                s,
                pos,
                canonic,
                7,
                DecodeError::ExpectedMap,
                DecodeError::OutOfBoundsMap,
            ) {
                Err(e) => Err(e),
                Ok((n, p)) => match decode_entries(s, p, n, canonic, false, Seq::empty()) {
                    Ok((es, end)) => Ok((Tree::Mapping(es), end)),
                    Err(e) => Err(e),
                },
            }
        }
    }
}

/// The bits of the float at `pos`. The canonic mode refuses a NaN whose bits are not all
/// ones, at the offset of the first of the eight bytes.
pub open spec fn decode_float(s: Seq<u8>, pos: int, canonic: bool) -> Outcome<u64> {
    if !(0 <= pos < s.len()) {
        Err((pos, DecodeError::Eoi))
    } else if s[pos] != 0x40 {
        Err((pos, DecodeError::ExpectedFloat))
    } else if pos + 9 > s.len() {
        Err((pos + 1, DecodeError::Eoi))
    } else {
        let bits = be_value(s.subrange(pos + 1, pos + 9)) as u64;
        if canonic && is_nan(bits) && bits != NAN_BITS {
            Err((pos + 1, DecodeError::Canonicity(CanonicityError::NaN)))
        } else {
            Ok((bits, pos + 9))
        }
    }
}

/// The bytes of the byte string at `pos`. The canonic mode has no byte strings.
pub open spec fn decode_bytes(s: Seq<u8>, pos: int, canonic: bool) -> Outcome<Seq<u8>> {
    if !(0 <= pos < s.len()) {
        Err((pos, DecodeError::Eoi))
    } else if s[pos] / 32 != 4 {
        Err((pos, DecodeError::ExpectedBytes))
    } else if canonic {
        Err((pos, DecodeError::Canonicity(CanonicityError::ByteString)))
    } else {
        match decode_count(
            s,
            pos,
            canonic,
            4,
            DecodeError::ExpectedBytes,
            DecodeError::OutOfBoundsString,
        ) {
            Err(e) => Err(e),
            Ok((n, p)) => if p + n > s.len() {
                Err((p, DecodeError::Eoi))
            } else {
                Ok((s.subrange(p, p + n), p + n))
            },
        }
    }
}

/// `acc` and the `n` values from `pos` on.
pub open spec fn decode_items(s: Seq<u8>, pos: int, n: nat, canonic: bool, acc: Seq<Tree>) -> Outcome<
    Seq<Tree>,
>
    decreases s.len() - pos, n + 1,
{
    if n == 0 {
        Ok((acc, pos))
    } else {
        match decode(s, pos, canonic) {
            Err(e) => Err(e),
            Ok((t, p)) => if pos < p <= s.len() {
                decode_items(s, p, (n - 1) as nat, canonic, acc.push(t))
            } else {
                Err((pos, DecodeError::Eoi))
            },
        }
    }
}

/// `acc` with the `n` entries from `pos` on bound in it, one after the other. In a set each
/// entry is a key alone, bound to nil. The canonic mode refuses a key that is not above the
/// key before it, at the offset of that key.
pub open spec fn decode_entries(
    s: Seq<u8>,
    pos: int,
    n: nat,
    canonic: bool,
    set: bool,
    acc: Seq<(Tree, Tree)>,
) -> Outcome<Seq<(Tree, Tree)>>
    decreases s.len() - pos, n + 1,
{
    if n == 0 {
        Ok((acc, pos))
    } else {
        match decode(s, pos, canonic) {
            Err(e) => Err(e),
            Ok((k, p)) => if !(pos < p <= s.len()) {
                Err((pos, DecodeError::Eoi))
            } else if canonic && acc.len() > 0 && order(acc.last().0, k) != Order::Less {
                Err((pos, DecodeError::Canonicity(CanonicityError::KeyOrder)))
            } else if set {
                decode_entries(s, p, (n - 1) as nat, canonic, set, insert(acc, k, Tree::Nil))
            } else {
                match decode(s, p, canonic) {
                    Err(e) => Err(e),
                    Ok((v, q)) => if p < q <= s.len() {
                        decode_entries(s, q, (n - 1) as nat, canonic, set, insert(acc, k, v))
                    } else {
                        Err((p, DecodeError::Eoi))
                    },
                }
            },
        }
    }
}

/// The error with the given reason at the given offset.
pub open spec fn failure(at: int, why: DecodeError) -> Error<DecodeError> {
    Error { position: at as usize, reason: Reason::Other(why) }
}

/// A decoded value agrees with an outcome: the same value and end, or the same failure.
pub open spec fn agrees(r: Result<(Value, usize), Error<DecodeError>>, d: Outcome<Tree>) -> bool {
    match (r, d) {
        (Ok((v, end)), Ok((t, e))) => v@ == t && end == e,
        (Err(x), Err((at, why))) => x == failure(at, why),
        _ => false,
    }
}

fn fail<T>(at: usize, why: DecodeError) -> (r: Result<T, Error<DecodeError>>)
    ensures
        r == Err::<T, Error<DecodeError>>(failure(at as int, why)),
{
    Err(Error { position: at, reason: Reason::Other(why) })
}

/// The least number of following bytes that can hold the int.
pub fn width_for_int(n: i64) -> (w: u8)
    ensures
        w == int_width(n as int),
{
    if 0 <= n && n <= 27 {
        0
    } else if -0x80 <= n && n <= 0x7F {
        1
    } else if -0x8000 <= n && n <= 0x7FFF {
        2
    } else if -0x8000_0000 <= n && n <= 0x7FFF_FFFF {
        4
    } else {
        8
    }
}

/// The least number of following bytes that can hold the count.
pub fn width_for_count(n: u64) -> (w: u8)
    ensures
        w == count_width(n as nat),
{
    if n <= 27 {
        0
    } else if n <= 0xFF {
        1
    } else if n <= 0xFFFF {
        2
    } else if n <= 0xFFFF_FFFF {
        4
    } else {
        8
    }
}

/// Reads the number announced by the tag byte at `pos`.
fn read_number(input: &[u8], pos: usize) -> (r: Result<((u64, u8), usize), Error<DecodeError>>)
    requires
        pos < input@.len(),
    ensures
        match (r, decode_number(input@, pos as int)) {
            (Ok(((u, w), end)), Ok(((su, sw), se))) => u == su && w == sw && end == se,
            (Err(x), Err((at, why))) => x == failure(at, why),
            _ => false,
        },
        r.is_ok() ==> pos < r.unwrap().1 <= input@.len(),
{
    let len = input.len();
    let arg = input[pos] % 32;
    let w: u8 = if arg == 28 {
        1
    } else if arg == 29 {
        2
    } else if arg == 30 {
        4
    } else if arg == 31 {
        8
    } else {
        0
    };
    if w == 0 {
        Ok(((arg as u64, 0), pos + 1))
    } else if (w as usize) > len - pos - 1 {
        fail(pos + 1, DecodeError::Eoi)
    } else {
        let u = read_be(input, pos + 1, w as usize);
        Ok(((u, w), pos + 1 + w as usize))
    }
}

/// Reads the int at `pos`.
pub fn read_int(input: &[u8], pos: usize, canonic: bool) -> (r: Result<
    (i64, usize),
    Error<DecodeError>,
>)
    requires
        pos <= input@.len(),
    ensures
        match (r, decode_int(input@, pos as int, canonic)) {
            (Ok((n, end)), Ok((sn, se))) => n == sn && end == se,
            (Err(x), Err((at, why))) => x == failure(at, why),
            _ => false,
        },
        r.is_ok() ==> pos < r.unwrap().1 <= input@.len(),
{
    if pos >= input.len() {
        return fail(pos, DecodeError::Eoi);
    }
    if input[pos] / 32 != 3 {
        return fail(pos, DecodeError::ExpectedInt);
    }
    match read_number(input, pos) {
        Err(e) => Err(e),
        Ok(((u, w), end)) => {
            proof {
                lemma_pow256();
                if w > 0 {
                    lemma_be_bytes_of_value(input@.subrange(pos + 1, pos + 1 + w));
                }
            }
            let n: i64 = if w == 0 {
                u as i64
            } else if w == 1 {
                if u >= 0x80 {
                    (u as i64) - 0x100
                } else {
                    u as i64
                }
            } else if w == 2 {
                if u >= 0x8000 {
                    (u as i64) - 0x1_0000
                } else {
                    u as i64
                }
            } else if w == 4 {
                if u >= 0x8000_0000 {
                    (u as i64) - 0x1_0000_0000
                } else {
                    u as i64
                }
            } else {
                to_signed(u)
            };
            if canonic && width_for_int(n) != w {
                fail(pos + 1, DecodeError::Canonicity(CanonicityError::IntTooWide))
            } else {
                Ok((n, end))
            }
        },
    }
}

/// Reads the count at `pos` under the tag with the given major number.
pub fn read_count(
    input: &[u8],
    pos: usize,
    canonic: bool,
    major: u8,
    expected: DecodeError,
    out_of_bounds: DecodeError,
) -> (r: Result<(u64, usize), Error<DecodeError>>)
    requires
        pos <= input@.len(),
    ensures
        match (
            r,
            decode_count(input@, pos as int, canonic, major as int, expected, out_of_bounds),
        ) {
            (Ok((n, end)), Ok((sn, se))) => n == sn && end == se,
            (Err(x), Err((at, why))) => x == failure(at, why),
            _ => false,
        },
        r.is_ok() ==> pos < r.unwrap().1 <= input@.len() && r.unwrap().0 <= MAX_COUNT,
{
    if pos >= input.len() {
        return fail(pos, DecodeError::Eoi);
    }
    if input[pos] / 32 != major {
        return fail(pos, expected);
    }
    match read_number(input, pos) {
        Err(e) => Err(e),
        Ok(((u, w), end)) => {
            if canonic && width_for_count(u) != w {
                fail(pos + 1, DecodeError::Canonicity(CanonicityError::CountTooWide))
            } else if u > MAX_COUNT {
                fail(end, out_of_bounds)
            } else {
                Ok((u, end))
            }
        },
    }
}

/// Reads the bits of the float at `pos`.
pub fn read_float(input: &[u8], pos: usize, canonic: bool) -> (r: Result<
    (u64, usize),
    Error<DecodeError>,
>)
    requires
        pos <= input@.len(),
    ensures
        match (r, decode_float(input@, pos as int, canonic)) {
            (Ok((n, end)), Ok((sn, se))) => n == sn && end == se,
            (Err(x), Err((at, why))) => x == failure(at, why),
            _ => false,
        },
        r.is_ok() ==> pos < r.unwrap().1 <= input@.len(),
{
    let len = input.len();
    if pos >= len {
        return fail(pos, DecodeError::Eoi);
    }
    if input[pos] != 0x40 {
        return fail(pos, DecodeError::ExpectedFloat);
    }
    if len - pos < 9 {
        return fail(pos + 1, DecodeError::Eoi);
    }
    let bits = read_be(input, pos + 1, 8);
    if canonic && float_is_nan(bits) && bits != NAN_BITS {
        fail(pos + 1, DecodeError::Canonicity(CanonicityError::NaN))
    } else {
        Ok((bits, pos + 9))
    }
}

/// Finds the byte string at `pos`: the offsets of its first byte and after its last one.
pub fn read_bytes(input: &[u8], pos: usize, canonic: bool) -> (r: Result<
    (usize, usize),
    Error<DecodeError>,
>)
    requires
        pos <= input@.len(),
    ensures
        match (r, decode_bytes(input@, pos as int, canonic)) {
            (Ok((start, end)), Ok((bytes, se))) => start <= end && end == se && bytes
                == input@.subrange(start as int, end as int),
            (Err(x), Err((at, why))) => x == failure(at, why),
            _ => false,
        },
        r.is_ok() ==> pos < r.unwrap().0 <= r.unwrap().1 <= input@.len(),
{
    let len = input.len();
    if pos >= len {
        return fail(pos, DecodeError::Eoi);
    }
    if input[pos] / 32 != 4 {
        return fail(pos, DecodeError::ExpectedBytes);
    }
    if canonic {
        return fail(pos, DecodeError::Canonicity(CanonicityError::ByteString));
    }
    match read_count(
        input,
        pos,
        canonic,
        4,
        DecodeError::ExpectedBytes,
        DecodeError::OutOfBoundsString,
    ) {
        Err(e) => Err(e),
        Ok((n, p)) => {
            if n > (len - p) as u64 {
                fail(p, DecodeError::Eoi)
            } else {
                Ok((p, p + n as usize))
            }
        },
    }
}

/// Decodes the value at `pos`: the value and the offset after it, or the offset and reason
/// of the failure (see [`decode`]).
#[verifier::loop_isolation(false)]
pub fn read_value(input: &[u8], pos: usize, canonic: bool) -> (r: Result<
    (Value, usize),
    Error<DecodeError>,
>)
    requires
        pos <= input@.len(),
    ensures
        agrees(r, decode(input@, pos as int, canonic)),
        r.is_ok() ==> pos < r.unwrap().1 <= input@.len() && r.unwrap().0.wf(),
    decreases input@.len() - pos,
{
    let len = input.len();
    if pos >= len {
        return fail(pos, DecodeError::Eoi);
    }
    let major = input[pos] / 32;
    let arg = input[pos] % 32;
    if major == 0 {
        if canonic && arg != 0 {
            fail(pos, DecodeError::Canonicity(CanonicityError::NilArgument))
        } else {
            Ok((Value::Nil, pos + 1))
        }
    } else if major == 1 {
        if arg == 0 {
            Ok((Value::Bool(false), pos + 1))
        } else if arg == 1 {
            Ok((Value::Bool(true), pos + 1))
        } else {
            fail(pos, DecodeError::ExpectedBool)
        }
    } else if major == 2 {
        match read_float(input, pos, canonic) {
            Ok((bits, end)) => {
                proof {
                    crate::value::lemma_view_normal(Value::Float(bits));
                }
                Ok((Value::Float(bits), end))
            },
            Err(e) => Err(e),
        }
    } else if major == 3 {
        match read_int(input, pos, canonic) {
            Ok((n, end)) => Ok((Value::Int(n), end)),
            Err(e) => Err(e),
        }
    } else if major == 4 {
        match read_bytes(input, pos, canonic) {
            Err(e) => Err(e),
            Ok((start, end)) => {
                let ghost bytes = input@.subrange(start as int, end as int);
                let mut out: Vec<Value> = Vec::new();
                let mut i: usize = start;
                while i < end
                    invariant
                        start <= i <= end <= len,
                        out@.len() == i - start,
                        forall|j: int|
                            0 <= j < out@.len() ==> (#[trigger] out@[j])@ == Tree::Int(
                                bytes[j] as i64,
                            ),
                    decreases end - i,
                {
                    out.push(Value::Int(input[i] as i64));
                    i = i + 1;
                }
                let v = Value::Array(out);
                proof {
                    assert(trees(out@) =~= byte_items(bytes));
                    assert(v@ == Tree::Array(trees(out@)));
                    assert(v@.wf() == (forall|j: int|
                        0 <= j < trees(out@).len() ==> (#[trigger] trees(out@)[j]).wf()));
                }
                Ok((v, end))
            },
        }
    } else if major == 5 {
        match read_count(
            input,
            pos,
            canonic,
            5,
            DecodeError::ExpectedArray,
            DecodeError::OutOfBoundsArray,
        ) {
            Err(e) => Err(e),
            Ok((n, start)) => {
                let mut out: Vec<Value> = Vec::new();
                let mut at: usize = start;
                let mut left: u64 = n;
                assert(trees(out@) =~= Seq::empty());
                while left > 0
                    invariant
                        pos < at <= len,
                        forall|j: int| 0 <= j < out@.len() ==> (#[trigger] trees(out@)[j]).wf(),
                        decode_items(input@, start as int, n as nat, canonic, Seq::empty())
                            == decode_items(
                            input@,
                            at as int,
                            left as nat,
                            canonic,
                            trees(out@),
                        ),
                    decreases left,
                {
                    match read_value(input, at, canonic) {
                        Err(e) => {
                            return Err(e);
                        },
                        Ok((v, next)) => {
                            let ghost before = trees(out@);
                            out.push(v);
                            assert(trees(out@) =~= before.push(v@));
                            at = next;
                            left = left - 1;
                        },
                    }
                }
                let v = Value::Array(out);
                proof {
                    assert(v@ == Tree::Array(trees(out@)));
                    assert(v@.wf() == (forall|j: int|
                        0 <= j < trees(out@).len() ==> (#[trigger] trees(out@)[j]).wf()));
                }
                Ok((v, at))
            },
        }
    } else {
        let set = major == 6;
        if set && canonic {
            return fail(pos, DecodeError::Canonicity(CanonicityError::SetTag));
        }
        let counted = if set {
            read_count(input, pos, canonic, 6, DecodeError::ExpectedMap, DecodeError::OutOfBoundsSet)
        } else {
            read_count(input, pos, canonic, 7, DecodeError::ExpectedMap, DecodeError::OutOfBoundsMap)
        };
        match counted {
            Err(e) => Err(e),
            Ok((n, start)) => {
                let mut out: Vec<(Value, Value)> = Vec::new();
                let mut at: usize = start;
                let mut left: u64 = n;
                assert(tree_entries(out@) =~= Seq::empty());
                assert(entries_wf(tree_entries(out@)));
                while left > 0
                    invariant
                        pos < at <= len,
                        entries_wf(tree_entries(out@)),
                        decode_entries(
                            input@,
                            start as int,
                            n as nat,
                            canonic,
                            set,
                            Seq::empty(),
                        ) == decode_entries(
                            input@,
                            at as int,
                            left as nat,
                            canonic,
                            set,
                            tree_entries(out@),
                        ),
                    decreases left,
                {
                    let ghost acc = tree_entries(out@);
                    match read_value(input, at, canonic) {
                        Err(e) => {
                            return Err(e);
                        },
                        Ok((k, next)) => {
                            if canonic && out.len() > 0 {
                                assert(acc.last().0 == out@[out@.len() - 1].0@);
                                match out[out.len() - 1].0.total_order(&k) {
                                    Order::Less => {},
                                    _ => {
                                        return fail(
                                            at,
                                            DecodeError::Canonicity(CanonicityError::KeyOrder),
                                        );
                                    },
                                }
                            }
                            if set {
                                proof {
                                    lemma_insert_wf(acc, k@, Tree::Nil);
                                }
                                insert_entry(&mut out, k, Value::Nil);
                                at = next;
                            } else {
                                match read_value(input, next, canonic) {
                                    Err(e) => {
                                        return Err(e);
                                    },
                                    Ok((v, after)) => {
                                        proof {
                                            lemma_insert_wf(acc, k@, v@);
                                        }
                                        insert_entry(&mut out, k, v);
                                        at = after;
                                    },
                                }
                            }
                            left = left - 1;
                        },
                    }
                }
                let v = Value::Mapping(out);
                proof {
                    assert(v@ == Tree::Mapping(tree_entries(out@)));
                    assert(v@.wf() == entries_wf(tree_entries(out@)));
                }
                Ok((v, at))
            },
        }
    }
}

/// How a step of a deserializer went: it gave what the outcome says and stands at the end
/// of what it read, or it failed as the outcome says and stands where it stood.
pub open spec fn stepped<T>(
    pre: Cursor,
    post: Cursor,
    r: Result<T, Error<DecodeError>>,
    d: Outcome<T>,
) -> bool {
    match (r, d) {
        (Ok(v), Ok((sv, end))) => v == sv && post == pre.at(end),
        (Err(e), Err((at, why))) => e == failure(at, why) && post == pre,
        _ => false,
    }
}

/// Nil at `pos`. The canonic mode refuses an argument other than zero.
pub open spec fn decode_nil(s: Seq<u8>, pos: int, canonic: bool) -> Outcome<()> {
    if !(0 <= pos < s.len()) {
        Err((pos, DecodeError::Eoi))
    } else if s[pos] / 32 != 0 {
        Err((pos, DecodeError::ExpectedNil))
    } else if canonic && s[pos] != 0 {
        Err((pos, DecodeError::Canonicity(CanonicityError::NilArgument)))
    } else {
        Ok(((), pos + 1))
    }
}

/// The bool at `pos`.
pub open spec fn decode_bool(s: Seq<u8>, pos: int) -> Outcome<bool> {
    if !(0 <= pos < s.len()) {
        Err((pos, DecodeError::Eoi))
    } else if s[pos] == 0x20 {
        Ok((false, pos + 1))
    } else if s[pos] == 0x21 {
        Ok((true, pos + 1))
    } else {
        Err((pos, DecodeError::ExpectedBool))
    }
}

/// The int at `pos`, which must lie from `lo` to `hi`; else the failure `out` at `pos`.
pub open spec fn decode_bounded(
    s: Seq<u8>,
    pos: int,
    canonic: bool,
    lo: int,
    hi: int,
    out: DecodeError,
) -> Outcome<int> {
    match decode_int(s, pos, canonic) {
        Err(e) => Err(e),
        Ok((n, end)) => if lo <= n <= hi {
            Ok((n, end))
        } else {
            Err((pos, out))
        },
    }
}

/// `acc` and the `n` ints from `pos` on, each of which must be a byte.
pub open spec fn decode_byte_items(s: Seq<u8>, pos: int, n: nat, canonic: bool, acc: Seq<u8>) -> Outcome<
    Seq<u8>,
>
    decreases n,
{
    if n == 0 {
        Ok((acc, pos))
    } else {
        match decode_bounded(s, pos, canonic, 0, 255, DecodeError::OutOfBoundsU8) {
            Err(e) => Err(e),
            Ok((b, p)) => decode_byte_items(s, p, (n - 1) as nat, canonic, acc.push(b as u8)),
        }
    }
}

/// The bytes at `pos`: those of a byte string, or those that an array of ints holds.
pub open spec fn decode_byte_seq(s: Seq<u8>, pos: int, canonic: bool) -> Outcome<Seq<u8>> {
    if 0 <= pos < s.len() && s[pos] / 32 == 5 {
        match decode_count(
            s,
            pos,
            canonic,
            5,
            DecodeError::ExpectedArray,
            DecodeError::OutOfBoundsArray,
        ) {
            Err(e) => Err(e),
            Ok((n, p)) => decode_byte_items(s, p, n, canonic, Seq::empty()),
        }
    } else {
        decode_bytes(s, pos, canonic)
    }
}

/// The UTF-8 bytes of the string at `pos`: bytes as `decode_byte_seq` gives them, refused
/// at their end if they are not UTF-8.
pub open spec fn decode_text(s: Seq<u8>, pos: int, canonic: bool) -> Outcome<Seq<u8>> {
    match decode_byte_seq(s, pos, canonic) {
        Err(e) => Err(e),
        Ok((bytes, end)) => if valid_utf8(bytes) {
            Ok((bytes, end))
        } else {
            Err((end, DecodeError::Utf8))
        },
    }
}

/// How an option begins.
#[derive(Debug, PartialEq, Eq, Clone, Copy, Structural)]
pub enum OptionHead {
    /// `None`: nothing follows.
    Absent,
    /// `Some`: the value follows.
    Present,
    /// `Some(nil)`, written as a set: nothing follows.
    PresentNil,
}

/// The bytes of `None`.
pub open spec fn none_text() -> Seq<u8> {
    seq![0x4Eu8, 0x6Fu8, 0x6Eu8, 0x65u8]
}

/// The bytes of `Some`.
pub open spec fn some_text() -> Seq<u8> {
    seq![0x53u8, 0x6Fu8, 0x6Du8, 0x65u8]
}

/// The head of the option at `pos`: the string `None`; or the first byte of a map of one
/// entry and the string `Some` as its key; or the same of a set. Anything else is refused
/// at `pos`, if it begins as a string, a set or a map could.
pub open spec fn decode_option(s: Seq<u8>, pos: int, canonic: bool) -> Outcome<OptionHead> {
    if !(0 <= pos < s.len()) {
        Err((pos, DecodeError::Eoi))
    } else {
        let major = s[pos] / 32;
        if major == 4 || major == 5 {
            match decode_text(s, pos, canonic) {
                Err(e) => Err(e),
                Ok((tag, end)) => if tag == none_text() {
                    Ok((OptionHead::Absent, end))
                } else {
                    Err((pos, DecodeError::ExpectedOption))
                },
            }
        } else if major == 6 || major == 7 {
            if major == 6 && canonic {
                Err((pos, DecodeError::Canonicity(CanonicityError::SetTag)))
            } else if s[pos] % 32 != 1 {
                Err((pos, DecodeError::ExpectedOption))
            } else {
                match decode_text(s, pos + 1, canonic) {
                    Err(e) => Err(e),
                    Ok((tag, end)) => if tag == some_text() {
                        Ok(
                            (
                                if major == 6 {
                                    OptionHead::PresentNil
                                } else {
                                    OptionHead::Present
                                },
                                end,
                            ),
                        )
                    } else {
                        Err((pos, DecodeError::ExpectedOption))
                    },
                }
            }
        } else {
            Err((pos, DecodeError::ExpectedOption))
        }
    }
}

/// How a sequence begins.
#[derive(Debug, PartialEq, Eq, Clone)]
pub enum SeqHead {
    /// A byte string: its bytes are the items, and nothing follows.
    Bytes(Vec<u8>),
    /// An array: so many items follow.
    Items(u64),
}

/// How a map begins.
#[derive(Debug, PartialEq, Eq, Clone, Copy, Structural)]
pub enum MapHead {
    /// A map: so many entries follow, each a key and a value.
    Entries(u64),
    /// A set: so many keys follow, each with the value nil.
    Keys(u64),
}

/// The count of the map or set at `pos`, and the offset after it.
pub open spec fn decode_map_count(s: Seq<u8>, pos: int, canonic: bool) -> Outcome<MapHead> {
    if !(0 <= pos < s.len()) {
        Err((pos, DecodeError::Eoi))
    } else if s[pos] / 32 == 6 {
        if canonic {
            Err((pos, DecodeError::Canonicity(CanonicityError::SetTag)))
        } else {
            match decode_count(
                s,
                pos,
                canonic,
                6,
                DecodeError::ExpectedMap,
                DecodeError::OutOfBoundsSet,
            ) {
                Err(e) => Err(e),
                Ok((n, p)) => Ok((MapHead::Keys(n as u64), p)),
            }
        }
    } else if s[pos] / 32 == 7 {
        match decode_count(
            s,
            pos,
            canonic,
            7,
            DecodeError::ExpectedMap,
            DecodeError::OutOfBoundsMap,
        ) {
            Err(e) => Err(e),
            Ok((n, p)) => Ok((MapHead::Entries(n as u64), p)),
        }
    } else {
        Err((pos, DecodeError::ExpectedMap))
    }
}

/// The head of the map at `pos` (see `decode_map_count`). The canonic mode gives it only
/// where the whole map that begins at `pos` is in the canonic encoding: its keys in strictly
/// ascending order, and every key and value canonic. Where it is not, the failure is the one
/// that `decode` gives for the map.
pub open spec fn decode_map_head(s: Seq<u8>, pos: int, canonic: bool) -> Outcome<MapHead> {
    match decode_map_count(s, pos, canonic) {
        Err(e) => Err(e),
        Ok(head) => if canonic {
            match decode(s, pos, true) {
                Err(e) => Err(e),
                Ok(_) => Ok(head),
            }
        } else {
            Ok(head)
        },
    }
}

/// How a value of an enum begins.
#[derive(Debug, PartialEq, Eq, Clone)]
pub enum EnumHead {
    /// A variant without data, by its name: nothing follows.
    Unit(String),
    /// A variant with data, by its name: the data follows.
    Data(String),
    /// A variant whose data is nil, by its name, written as a set: nothing follows.
    DataNil(String),
}

/// A structure that deserializes valuable values from the compact encoding, kind by kind.
pub struct VVDeserializer<'de> {
    p: ParserHelper<'de>,
    canonic: bool,
}

impl<'de> View for VVDeserializer<'de> {
    type V = Cursor;

    closed spec fn view(&self) -> Cursor {
        self.p@
    }
}

impl<'de> VVDeserializer<'de> {
    /// Whether the deserializer is in the canonic mode.
    pub closed spec fn strict(&self) -> bool {
        self.canonic
    }

    /// The deserializer is valid: its position lies within the input, or at its end.
    pub open spec fn wf(&self) -> bool {
        self@.wf()
    }

    /// A deserializer in the permissive mode.
    pub fn new(input: &'de [u8]) -> (d: Self)
        ensures
            d.wf(),
            d@.input == input@,
            d@.position == 0,
            !d.strict(),
    {
        VVDeserializer { p: ParserHelper::new(input), canonic: false }
    }

    /// A deserializer in the canonic mode.
    pub fn canonic(input: &'de [u8]) -> (d: Self)
        ensures
            d.wf(),
            d@.input == input@,
            d@.position == 0,
            d.strict(),
    {
        VVDeserializer { p: ParserHelper::new(input), canonic: true }
    }

    /// The current byte offset.
    pub fn position(&self) -> (n: usize)
        ensures
            n == self@.position,
    {
        self.p.position()
    }

    fn moved<T>(&mut self, end: usize, v: T) -> (r: Result<T, Error<DecodeError>>)
        requires
            old(self).wf(),
            old(self)@.position <= end <= old(self)@.input.len(),
        ensures
            r == Ok::<T, Error<DecodeError>>(v),
            final(self)@ == old(self)@.at(end as int),
            final(self).wf(),
            final(self).strict() == old(self).strict(),
    {
        let by = end - self.p.position();
        self.p.advance(by);
        Ok(v)
    }

    /// Reads any value.
    pub fn parse_value(&mut self) -> (r: Result<Value, Error<DecodeError>>)
        requires
            old(self).wf(),
        ensures
            final(self).wf(),
            final(self).strict() == old(self).strict(),
            match (r, decode(old(self)@.input, old(self)@.position, old(self).strict())) {
                (Ok(v), Ok((t, end))) => v@ == t && v.wf() && final(self)@ == old(self)@.at(end),
                (Err(e), Err((at, why))) => e == failure(at, why) && final(self)@ == old(self)@,
                _ => false,
            },
    {
        match read_value(self.p.input(), self.p.position(), self.canonic) {
            Err(e) => Err(e),
            Ok((v, end)) => self.moved(end, v),
        }
    }

    /// Reads nil.
    pub fn parse_nil(&mut self) -> (r: Result<(), Error<DecodeError>>)
        requires
            old(self).wf(),
        ensures
            final(self).wf(),
            final(self).strict() == old(self).strict(),
            stepped(
                old(self)@,
                final(self)@,
                r,
                decode_nil(old(self)@.input, old(self)@.position, old(self).strict()),
            ),
    {
        let pos = self.p.position();
        let len = self.p.len();
        match self.p.peek_or_end() {
            None => fail(pos, DecodeError::Eoi),
            Some(b) => {
                if b / 32 != 0 {
                    fail(pos, DecodeError::ExpectedNil)
                } else if self.canonic && b != 0 {
                    fail(pos, DecodeError::Canonicity(CanonicityError::NilArgument))
                } else {
                    self.moved(pos + 1, ())
                }
            },
        }
    }

    /// Reads a bool.
    pub fn parse_bool(&mut self) -> (r: Result<bool, Error<DecodeError>>)
        requires
            old(self).wf(),
        ensures
            final(self).wf(),
            final(self).strict() == old(self).strict(),
            stepped(
                old(self)@,
                final(self)@,
                r,
                decode_bool(old(self)@.input, old(self)@.position),
            ),
    {
        let pos = self.p.position();
        let len = self.p.len();
        match self.p.peek_or_end() {
            None => fail(pos, DecodeError::Eoi),
            Some(b) => {
                if b == 0x20 {
                    self.moved(pos + 1, false)
                } else if b == 0x21 {
                    self.moved(pos + 1, true)
                } else {
                    fail(pos, DecodeError::ExpectedBool)
                }
            },
        }
    }

    /// Reads a float, and gives its bits.
    pub fn parse_float(&mut self) -> (r: Result<u64, Error<DecodeError>>)
        requires
            old(self).wf(),
        ensures
            final(self).wf(),
            final(self).strict() == old(self).strict(),
            stepped(
                old(self)@,
                final(self)@,
                r,
                decode_float(old(self)@.input, old(self)@.position, old(self).strict()),
            ),
    {
        match read_float(self.p.input(), self.p.position(), self.canonic) {
            Err(e) => Err(e),
            Ok((bits, end)) => self.moved(end, bits),
        }
    }

    /// Reads an int.
    pub fn parse_int(&mut self) -> (r: Result<i64, Error<DecodeError>>)
        requires
            old(self).wf(),
        ensures
            final(self).wf(),
            final(self).strict() == old(self).strict(),
            match (r, decode_int(old(self)@.input, old(self)@.position, old(self).strict())) {
                (Ok(v), Ok((n, end))) => v == n && final(self)@ == old(self)@.at(end),
                (Err(e), Err((at, why))) => e == failure(at, why) && final(self)@ == old(self)@,
                _ => false,
            },
    {
        match read_int(self.p.input(), self.p.position(), self.canonic) {
            Err(e) => Err(e),
            Ok((n, end)) => self.moved(end, n),
        }
    }

    /// Reads an int that must lie from `lo` to `hi`; else fails with `out` at its start.
    pub fn parse_bounded(&mut self, lo: i64, hi: i64, out: DecodeError) -> (r: Result<
        i64,
        Error<DecodeError>,
    >)
        requires
            old(self).wf(),
        ensures
            final(self).wf(),
            final(self).strict() == old(self).strict(),
            match (
                r,
                decode_bounded(
                    old(self)@.input,
                    old(self)@.position,
                    old(self).strict(),
                    lo as int,
                    hi as int,
                    out,
                ),
            ) {
                (Ok(v), Ok((n, end))) => v == n && lo <= v <= hi && final(self)@ == old(self)@.at(
                    end,
                ),
                (Err(e), Err((at, why))) => e == failure(at, why) && final(self)@ == old(self)@,
                _ => false,
            },
    {
        let start = self.p.position();
        match read_int(self.p.input(), start, self.canonic) {
            Err(e) => Err(e),
            Ok((n, end)) => {
                if n < lo || n > hi {
                    fail(start, out)
                } else {
                    self.moved(end, n)
                }
            },
        }
    }

    /// Reads an int that fits an `i8`.
    pub fn deserialize_i8(&mut self) -> (r: Result<i8, Error<DecodeError>>)
        requires
            old(self).wf(),
        ensures
            final(self).wf(),
            final(self).strict() == old(self).strict(),
            match (
                r,
                decode_bounded(
                    old(self)@.input,
                    old(self)@.position,
                    old(self).strict(),
                    -0x80,
                    0x7F,
                    DecodeError::OutOfBoundsI8,
                ),
            ) {
                (Ok(v), Ok((n, end))) => v == n && final(self)@ == old(self)@.at(end),
                (Err(e), Err((at, why))) => e == failure(at, why) && final(self)@ == old(self)@,
                _ => false,
            },
    {
        match self.parse_bounded(-0x80, 0x7F, DecodeError::OutOfBoundsI8) {
            Ok(n) => Ok(n as i8),
            Err(e) => Err(e),
        }
    }

    /// Reads an int that fits an `i16`.
    pub fn deserialize_i16(&mut self) -> (r: Result<i16, Error<DecodeError>>)
        requires
            old(self).wf(),
        ensures
            final(self).wf(),
            final(self).strict() == old(self).strict(),
            match (
                r,
                decode_bounded(
                    old(self)@.input,
                    old(self)@.position,
                    old(self).strict(),
                    -0x8000,
                    0x7FFF,
                    DecodeError::OutOfBoundsI16,
                ),
            ) {
                (Ok(v), Ok((n, end))) => v == n && final(self)@ == old(self)@.at(end),
                (Err(e), Err((at, why))) => e == failure(at, why) && final(self)@ == old(self)@,
                _ => false,
            },
    {
        match self.parse_bounded(-0x8000, 0x7FFF, DecodeError::OutOfBoundsI16) {
            Ok(n) => Ok(n as i16),
            Err(e) => Err(e),
        }
    }

    /// Reads an int that fits an `i32`.
    pub fn deserialize_i32(&mut self) -> (r: Result<i32, Error<DecodeError>>)
        requires
            old(self).wf(),
        ensures
            final(self).wf(),
            final(self).strict() == old(self).strict(),
            match (
                r,
                decode_bounded(
                    old(self)@.input,
                    old(self)@.position,
                    old(self).strict(),
                    -0x8000_0000,
                    0x7FFF_FFFF,
                    DecodeError::OutOfBoundsI32,
                ),
            ) {
                (Ok(v), Ok((n, end))) => v == n && final(self)@ == old(self)@.at(end),
                (Err(e), Err((at, why))) => e == failure(at, why) && final(self)@ == old(self)@,
                _ => false,
            },
    {
        match self.parse_bounded(-0x8000_0000, 0x7FFF_FFFF, DecodeError::OutOfBoundsI32) {
            Ok(n) => Ok(n as i32),
            Err(e) => Err(e),
        }
    }

    /// Reads an int.
    pub fn deserialize_i64(&mut self) -> (r: Result<i64, Error<DecodeError>>)
        requires
            old(self).wf(),
        ensures
            final(self).wf(),
            final(self).strict() == old(self).strict(),
            match (r, decode_int(old(self)@.input, old(self)@.position, old(self).strict())) {
                (Ok(v), Ok((n, end))) => v == n && final(self)@ == old(self)@.at(end),
                (Err(e), Err((at, why))) => e == failure(at, why) && final(self)@ == old(self)@,
                _ => false,
            },
    {
        self.parse_int()
    }

    /// Reads an int that fits a `u8`.
    pub fn deserialize_u8(&mut self) -> (r: Result<u8, Error<DecodeError>>)
        requires
            old(self).wf(),
        ensures
            final(self).wf(),
            final(self).strict() == old(self).strict(),
            match (
                r,
                decode_bounded(
                    old(self)@.input,
                    old(self)@.position,
                    old(self).strict(),
                    0,
                    0xFF,
                    DecodeError::OutOfBoundsU8,
                ),
            ) {
                (Ok(v), Ok((n, end))) => v == n && final(self)@ == old(self)@.at(end),
                (Err(e), Err((at, why))) => e == failure(at, why) && final(self)@ == old(self)@,
                _ => false,
            },
    {
        match self.parse_bounded(0, 0xFF, DecodeError::OutOfBoundsU8) {
            Ok(n) => Ok(n as u8),
            Err(e) => Err(e),
        }
    }

    /// Reads an int that fits a `u16`.
    pub fn deserialize_u16(&mut self) -> (r: Result<u16, Error<DecodeError>>)
        requires
            old(self).wf(),
        ensures
            final(self).wf(),
            final(self).strict() == old(self).strict(),
            match (
                r,
                decode_bounded(
                    old(self)@.input,
                    old(self)@.position,
                    old(self).strict(),
                    0,
                    0xFFFF,
                    DecodeError::OutOfBoundsU16,
                ),
            ) {
                (Ok(v), Ok((n, end))) => v == n && final(self)@ == old(self)@.at(end),
                (Err(e), Err((at, why))) => e == failure(at, why) && final(self)@ == old(self)@,
                _ => false,
            },
    {
        match self.parse_bounded(0, 0xFFFF, DecodeError::OutOfBoundsU16) {
            Ok(n) => Ok(n as u16),
            Err(e) => Err(e),
        }
    }

    /// Reads an int that fits a `u32`.
    pub fn deserialize_u32(&mut self) -> (r: Result<u32, Error<DecodeError>>)
        requires
            old(self).wf(),
        ensures
            final(self).wf(),
            final(self).strict() == old(self).strict(),
            match (
                r,
                decode_bounded(
                    old(self)@.input,
                    old(self)@.position,
                    old(self).strict(),
                    0,
                    0xFFFF_FFFF,
                    DecodeError::OutOfBoundsU32,
                ),
            ) {
                (Ok(v), Ok((n, end))) => v == n && final(self)@ == old(self)@.at(end),
                (Err(e), Err((at, why))) => e == failure(at, why) && final(self)@ == old(self)@,
                _ => false,
            },
    {
        match self.parse_bounded(0, 0xFFFF_FFFF, DecodeError::OutOfBoundsU32) {
            Ok(n) => Ok(n as u32),
            Err(e) => Err(e),
        }
    }

    /// Reads an int that is not negative.
    pub fn deserialize_u64(&mut self) -> (r: Result<u64, Error<DecodeError>>)
        requires
            old(self).wf(),
        ensures
            final(self).wf(),
            final(self).strict() == old(self).strict(),
            match (
                r,
                decode_bounded(
                    old(self)@.input,
                    old(self)@.position,
                    old(self).strict(),
                    0,
                    0x7FFF_FFFF_FFFF_FFFF,
                    DecodeError::OutOfBoundsU64,
                ),
            ) {
                (Ok(v), Ok((n, end))) => v == n && final(self)@ == old(self)@.at(end),
                (Err(e), Err((at, why))) => e == failure(at, why) && final(self)@ == old(self)@,
                _ => false,
            },
    {
        match self.parse_bounded(0, 0x7FFF_FFFF_FFFF_FFFF, DecodeError::OutOfBoundsU64) {
            Ok(n) => Ok(n as u64),
            Err(e) => Err(e),
        }
    }

    /// Reads a char: an int that is a Unicode scalar value.
    pub fn deserialize_char(&mut self) -> (r: Result<char, Error<DecodeError>>)
        requires
            old(self).wf(),
        ensures
            final(self).wf(),
            final(self).strict() == old(self).strict(),
            match decode_bounded(
                old(self)@.input,
                old(self)@.position,
                old(self).strict(),
                0,
                0xFFFF_FFFF,
                DecodeError::OutOfBoundsChar,
            ) {
                Ok((n, end)) => if is_scalar(n as u32) {
                    r.is_ok() && r.unwrap() as u32 == n && final(self)@ == old(self)@.at(end)
                } else {
                    r == Err::<char, Error<DecodeError>>(
                        failure(old(self)@.position, DecodeError::OutOfBoundsChar),
                    ) && final(self)@ == old(self)@
                },
                Err((at, why)) => r == Err::<char, Error<DecodeError>>(failure(at, why))
                    && final(self)@ == old(self)@,
            },
    {
        let start = self.p.position();
        match read_int(self.p.input(), start, self.canonic) {
            Err(e) => Err(e),
            Ok((n, end)) => {
                if n < 0 || n > 0xFFFF_FFFF {
                    fail(start, DecodeError::OutOfBoundsChar)
                } else {
                    match char_from_u32(n as u32) {
                        Some(c) => self.moved(end, c),
                        None => fail(start, DecodeError::OutOfBoundsChar),
                    }
                }
            },
        }
    }

    /// Reads bytes: a byte string, or an array of ints that are bytes.
    pub fn deserialize_bytes(&mut self) -> (r: Result<Vec<u8>, Error<DecodeError>>)
        requires
            old(self).wf(),
        ensures
            final(self).wf(),
            final(self).strict() == old(self).strict(),
            match (
                r,
                decode_byte_seq(old(self)@.input, old(self)@.position, old(self).strict()),
            ) {
                (Ok(v), Ok((bytes, end))) => v@ == bytes && final(self)@ == old(self)@.at(end),
                (Err(e), Err((at, why))) => e == failure(at, why) && final(self)@ == old(self)@,
                _ => false,
            },
    {
        let input = self.p.input();
        let pos = self.p.position();
        match read_byte_seq(input, pos, self.canonic) {
            Err(e) => Err(e),
            Ok((v, end)) => self.moved(end, v),
        }
    }

    /// Reads a string: bytes as `deserialize_bytes` reads them, which must be UTF-8.
    pub fn deserialize_string(&mut self) -> (r: Result<String, Error<DecodeError>>)
        requires
            old(self).wf(),
        ensures
            final(self).wf(),
            final(self).strict() == old(self).strict(),
            match (r, decode_text(old(self)@.input, old(self)@.position, old(self).strict())) {
                (Ok(v), Ok((bytes, end))) => encode_utf8(v@) == bytes && final(self)@
                    == old(self)@.at(end),
                (Err(e), Err((at, why))) => e == failure(at, why) && final(self)@ == old(self)@,
                _ => false,
            },
    {
        let input = self.p.input();
        let pos = self.p.position();
        match read_text(input, pos, self.canonic) {
            Err(e) => Err(e),
            Ok((v, end)) => self.moved(end, v),
        }
    }

    /// Reads the head of an option (see [`decode_option`]).
    pub fn deserialize_option(&mut self) -> (r: Result<OptionHead, Error<DecodeError>>)
        requires
            old(self).wf(),
        ensures
            final(self).wf(),
            final(self).strict() == old(self).strict(),
            stepped(
                old(self)@,
                final(self)@,
                r,
                decode_option(old(self)@.input, old(self)@.position, old(self).strict()),
            ),
    {
        let input = self.p.input();
        let pos = self.p.position();
        if pos >= input.len() {
            return fail(pos, DecodeError::Eoi);
        }
        let major = input[pos] / 32;
        if major == 4 || major == 5 {
            match read_text(input, pos, self.canonic) {
                Err(e) => Err(e),
                Ok((tag, end)) => {
                    if same_bytes(tag.as_str().as_bytes(), &[0x4E, 0x6F, 0x6E, 0x65]) {
                        self.moved(end, OptionHead::Absent)
                    } else {
                        fail(pos, DecodeError::ExpectedOption)
                    }
                },
            }
        } else if major == 6 || major == 7 {
            if major == 6 && self.canonic {
                fail(pos, DecodeError::Canonicity(CanonicityError::SetTag))
            } else if input[pos] % 32 != 1 {
                fail(pos, DecodeError::ExpectedOption)
            } else {
                match read_text(input, pos + 1, self.canonic) {
                    Err(e) => Err(e),
                    Ok((tag, end)) => {
                        if same_bytes(tag.as_str().as_bytes(), &[0x53, 0x6F, 0x6D, 0x65]) {
                            self.moved(
                                end,
                                if major == 6 {
                                    OptionHead::PresentNil
                                } else {
                                    OptionHead::Present
                                },
                            )
                        } else {
                            fail(pos, DecodeError::ExpectedOption)
                        }
                    },
                }
            }
        } else {
            fail(pos, DecodeError::ExpectedOption)
        }
    }

    /// Reads nil.
    pub fn deserialize_unit(&mut self) -> (r: Result<(), Error<DecodeError>>)
        requires
            old(self).wf(),
        ensures
            final(self).wf(),
            final(self).strict() == old(self).strict(),
            stepped(
                old(self)@,
                final(self)@,
                r,
                decode_nil(old(self)@.input, old(self)@.position, old(self).strict()),
            ),
    {
        self.parse_nil()
    }

    /// Reads the head of a sequence: a whole byte string, whose bytes are the items, or the
    /// count of an array, whose items follow. Anything else is refused with `ExpectedArray`.
    pub fn deserialize_seq(&mut self) -> (r: Result<SeqHead, Error<DecodeError>>)
        requires
            old(self).wf(),
        ensures
            final(self).wf(),
            final(self).strict() == old(self).strict(),
            ({
                let s = old(self)@.input;
                let pos = old(self)@.position;
                if 0 <= pos < s.len() && s[pos] / 32 == 4 {
                    match (r, decode_bytes(s, pos, old(self).strict())) {
                        (Ok(SeqHead::Bytes(v)), Ok((bytes, end))) => v@ == bytes && final(self)@
                            == old(self)@.at(end),
                        (Err(e), Err((at, why))) => e == failure(at, why) && final(self)@ == old(self)@,
                        _ => false,
                    }
                } else if 0 <= pos < s.len() && s[pos] / 32 == 5 {
                    match (
                        r,
                        decode_count(
                            s,
                            pos,
                            old(self).strict(),
                            5,
                            DecodeError::ExpectedArray,
                            DecodeError::OutOfBoundsArray,
                        ),
                    ) {
                        (Ok(SeqHead::Items(v)), Ok((n, end))) => v == n && final(self)@ == old(self)@.at(end),
                        (Err(e), Err((at, why))) => e == failure(at, why) && final(self)@ == old(self)@,
                        _ => false,
                    }
                } else {
                    final(self)@ == old(self)@ && r == Err::<SeqHead, Error<DecodeError>>(
                        failure(
                            pos,
                            if pos < s.len() {
                                DecodeError::ExpectedArray
                            } else {
                                DecodeError::Eoi
                            },
                        ),
                    )
                }
            }),
    {
        let input = self.p.input();
        let pos = self.p.position();
        if pos >= input.len() {
            return fail(pos, DecodeError::Eoi);
        }
        let major = input[pos] / 32;
        if major == 4 {
            match read_bytes(input, pos, self.canonic) {
                Err(e) => Err(e),
                Ok((start, end)) => {
                    let v = vstd::slice::slice_to_vec(vstd::slice::slice_subrange(input, start, end));
                    self.moved(end, SeqHead::Bytes(v))
                },
            }
        } else if major == 5 {
            match read_count(
                input,
                pos,
                self.canonic,
                5,
                DecodeError::ExpectedArray,
                DecodeError::OutOfBoundsArray,
            ) {
                Err(e) => Err(e),
                Ok((n, end)) => self.moved(end, SeqHead::Items(n)),
            }
        } else {
            fail(pos, DecodeError::ExpectedArray)
        }
    }

    /// Reads the head of a map: the count of a map, whose entries follow, or the count of a
    /// set, whose keys follow. Anything else is refused with `ExpectedMap`. In the canonic
    /// mode the whole map is looked through first, and refused as `decode` refuses it: so a
    /// map whose keys do not ascend strictly is refused here, with `KeyOrder` at the key.
    pub fn deserialize_map(&mut self) -> (r: Result<MapHead, Error<DecodeError>>)
        requires
            old(self).wf(),
        ensures
            final(self).wf(),
            final(self).strict() == old(self).strict(),
            stepped(
                old(self)@,
                final(self)@,
                r,
                decode_map_head(old(self)@.input, old(self)@.position, old(self).strict()),
            ),
    {
        let input = self.p.input();
        let pos = self.p.position();
        if pos >= input.len() {
            return fail(pos, DecodeError::Eoi);
        }
        let major = input[pos] / 32;
        if major == 6 {
            if self.canonic {
                return fail(pos, DecodeError::Canonicity(CanonicityError::SetTag));
            }
            match read_count(
                input,
                pos,
                self.canonic,
                6,
                DecodeError::ExpectedMap,
                DecodeError::OutOfBoundsSet,
            ) {
                Err(e) => Err(e),
                Ok((n, end)) => self.moved(end, MapHead::Keys(n)),
            }
        } else if major == 7 {
            match read_count(
                input,
                pos,
                self.canonic,
                7,
                DecodeError::ExpectedMap,
                DecodeError::OutOfBoundsMap,
            ) {
                Err(e) => Err(e),
                Ok((n, end)) => {
                    if self.canonic {
                        match read_value(input, pos, true) {
                            Err(e) => {
                                return Err(e);
                            },
                            Ok(_) => {},
                        }
                    }
                    self.moved(end, MapHead::Entries(n))
                },
            }
        } else {
            fail(pos, DecodeError::ExpectedMap)
        }
    }

    /// Reads the head of a value of the enum `name`: a string, the name of a variant without
    /// data; or the first byte of a map of one entry and a string as its key, the name of a
    /// variant whose data follows; or the same of a set, for a variant whose data is nil.
    /// What does not begin as a string, a set or a map could is refused with `ExpectedEnum`,
    /// a set or a map of another count than one with `ExpectedEnumVariant`.
    pub fn deserialize_enum(&mut self, name: &str) -> (r: Result<EnumHead, Error<DecodeError>>)
        requires
            old(self).wf(),
        ensures
            final(self).wf(),
            final(self).strict() == old(self).strict(),
            ({
                let s = old(self)@.input;
                let pos = old(self)@.position;
                let strict = old(self).strict();
                if !(0 <= pos < s.len()) {
                    r == Err::<EnumHead, Error<DecodeError>>(failure(pos, DecodeError::Eoi))
                } else if s[pos] / 32 < 4 {
                    r.is_err() && r.unwrap_err().position == pos && r.unwrap_err().reason
                        is Other && r.unwrap_err().reason->Other_0 is ExpectedEnum
                } else if s[pos] / 32 == 6 && strict {
                    r == Err::<EnumHead, Error<DecodeError>>(
                        failure(pos, DecodeError::Canonicity(CanonicityError::SetTag)),
                    )
                } else if s[pos] / 32 >= 6 && s[pos] % 32 != 1 {
                    r == Err::<EnumHead, Error<DecodeError>>(
                        failure(pos, DecodeError::ExpectedEnumVariant),
                    )
                } else {
                    let from = if s[pos] / 32 >= 6 {
                        pos + 1
                    } else {
                        pos
                    };
                    match (r, decode_text(s, from, strict)) {
                        (Ok(head), Ok((bytes, end))) => final(self)@ == old(self)@.at(end) && (
                        match head {
                            EnumHead::Unit(v) => s[pos] / 32 < 6 && encode_utf8(v@) == bytes,
                            EnumHead::Data(v) => s[pos] / 32 == 7 && encode_utf8(v@) == bytes,
                            EnumHead::DataNil(v) => s[pos] / 32 == 6 && encode_utf8(v@) == bytes,
                        }),
                        (Err(e), Err((at, why))) => e == failure(at, why),
                        _ => false,
                    }
                }
            }),
            r.is_err() ==> final(self)@ == old(self)@,
    {
        let input = self.p.input();
        let pos = self.p.position();
        if pos >= input.len() {
            return fail(pos, DecodeError::Eoi);
        }
        let major = input[pos] / 32;
        if major < 4 {
            return fail(pos, DecodeError::ExpectedEnum(name.to_owned()));
        }
        if major == 6 && self.canonic {
            return fail(pos, DecodeError::Canonicity(CanonicityError::SetTag));
        }
        if major >= 6 && input[pos] % 32 != 1 {
            return fail(pos, DecodeError::ExpectedEnumVariant);
        }
        let from = if major >= 6 {
            pos + 1
        } else {
            pos
        };
        match read_text(input, from, self.canonic) {
            Err(e) => Err(e),
            Ok((v, end)) => {
                if major == 6 {
                    self.moved(end, EnumHead::DataNil(v))
                } else if major == 7 {
                    self.moved(end, EnumHead::Data(v))
                } else {
                    self.moved(end, EnumHead::Unit(v))
                }
            },
        }
    }
}

/// Whether two runs of bytes are the same.
pub fn same_bytes(a: &[u8], b: &[u8]) -> (r: bool)
    ensures
        r == (a@ == b@),
{
    if a.len() != b.len() {
        return false;
    }
    let mut i: usize = 0;
    while i < a.len()
        invariant
            0 <= i <= a.len(),
            a.len() == b.len(),
            forall|j: int| 0 <= j < i ==> a@[j] == b@[j],
        decreases a.len() - i,
    {
        if a[i] != b[i] {
            return false;
        }
        i = i + 1;
    }
    assert(a@ =~= b@);
    true
}

/// Reads bytes at `pos`: a byte string, or an array of ints that are bytes.
#[verifier::loop_isolation(false)]
pub fn read_byte_seq(input: &[u8], pos: usize, canonic: bool) -> (r: Result<
    (Vec<u8>, usize),
    Error<DecodeError>,
>)
    requires
        pos <= input@.len(),
    ensures
        match (r, decode_byte_seq(input@, pos as int, canonic)) {
            (Ok((v, end)), Ok((bytes, se))) => v@ == bytes && end == se,
            (Err(x), Err((at, why))) => x == failure(at, why),
            _ => false,
        },
        r.is_ok() ==> pos < r.unwrap().1 <= input@.len(),
{
    if pos < input.len() && input[pos] / 32 == 5 {
        match read_count(
            input,
            pos,
            canonic,
            5,
            DecodeError::ExpectedArray,
            DecodeError::OutOfBoundsArray,
        ) {
            Err(e) => Err(e),
            Ok((n, start)) => {
                let mut out: Vec<u8> = Vec::new();
                let mut at: usize = start;
                let mut left: u64 = n;
                while left > 0
                    invariant
                        pos < at <= input@.len(),
                        decode_byte_items(input@, start as int, n as nat, canonic, Seq::empty())
                            == decode_byte_items(input@, at as int, left as nat, canonic, out@),
                    decreases left,
                {
                    match read_int(input, at, canonic) {
                        Err(e) => {
                            return Err(e);
                        },
                        Ok((b, next)) => {
                            if b < 0 || b > 255 {
                                return fail(at, DecodeError::OutOfBoundsU8);
                            }
                            out.push(b as u8);
                            at = next;
                            left = left - 1;
                        },
                    }
                }
                Ok((out, at))
            },
        }
    } else {
        match read_bytes(input, pos, canonic) {
            Err(e) => Err(e),
            Ok((start, end)) => {
                let v = vstd::slice::slice_to_vec(vstd::slice::slice_subrange(input, start, end));
                Ok((v, end))
            },
        }
    }
}

/// Reads a string at `pos`: bytes as `read_byte_seq` reads them, which must be UTF-8.
pub fn read_text(input: &[u8], pos: usize, canonic: bool) -> (r: Result<
    (String, usize),
    Error<DecodeError>,
>)
    requires
        pos <= input@.len(),
    ensures
        match (r, decode_text(input@, pos as int, canonic)) {
            (Ok((v, end)), Ok((bytes, se))) => encode_utf8(v@) == bytes && end == se,
            (Err(x), Err((at, why))) => x == failure(at, why),
            _ => false,
        },
        r.is_ok() ==> pos < r.unwrap().1 <= input@.len(),
{
    match read_byte_seq(input, pos, canonic) {
        Err(e) => Err(e),
        Ok((bytes, end)) => match string_from_utf8(bytes) {
            Some(s) => Ok((s, end)),
            None => fail(end, DecodeError::Utf8),
        },
    }
}

} // verus!

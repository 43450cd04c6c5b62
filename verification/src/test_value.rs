//! Values together with one chosen encoding each, for testing decoders: the encodings cover
//! the freedoms that the formats leave (whitespace, bases, underscores, widths).
use crate::compact::wire::{int_bytes, int_width, lemma_pow256, to_unsigned};
use crate::text::{digits, magnitude, push_all, push_digits, push_repeat};
use crate::value::{Tree, Value};
use std::collections::{BTreeMap, BTreeSet};
use vstd::prelude::*;
use vstd::string::StringSliceAdditionalSpecFns;

verus! {

/// One piece of whitespace.
#[derive(Debug)]
pub enum Space_ {
    Tab,
    LF,
    CR,
    Space,
    /// A comment: `#`, the text, and a newline. The text must not hold a newline (0x0a).
    Comment(String),
}

/// One piece of whitespace whose comment, if it is one, holds no newline.
#[derive(Debug)]
pub struct Space(pub Space_);

/// A run of whitespace before a value.
#[derive(Debug)]
pub struct Spaces(pub Vec<Space>);

impl Space_ {
    /// The bytes of the piece.
    pub open spec fn bytes(&self) -> Seq<u8> {
        match self {
            Space_::Tab => seq![0x09u8],
            Space_::LF => seq![0x0au8],
            Space_::CR => seq![0x0du8],
            Space_::Space => seq![0x20u8],
            Space_::Comment(c) => seq![0x23u8] + vstd::utf8::encode_utf8(c@) + seq![0x0au8],
        }
    }

    /// Whether the piece is whitespace of the human-readable encoding: any piece but a
    /// comment with a newline in its text.
    pub open spec fn valid(&self) -> bool {
        match self {
            Space_::Comment(c) => !vstd::utf8::encode_utf8(c@).contains(0x0au8),
            _ => true,
        }
    }

    pub fn encode(&self, out: &mut Vec<u8>)
        ensures
            final(out)@ == old(out)@ + self.bytes(),
    {
        match self {
            Space_::Tab => {
                out.push(0x09);
                assert(out@ =~= old(out)@ + self.bytes());
            },
            Space_::LF => {
                out.push(0x0a);
                assert(out@ =~= old(out)@ + self.bytes());
            },
            Space_::CR => {
                out.push(0x0d);
                assert(out@ =~= old(out)@ + self.bytes());
            },
            Space_::Space => {
                out.push(0x20);
                assert(out@ =~= old(out)@ + self.bytes());
            },
            Space_::Comment(c) => {
                out.push(0x23);
                push_all(out, c.as_str().as_bytes());
                out.push(0x0a);
                assert(out@ =~= old(out)@ + self.bytes());
            },
        }
    }

    /// Whether the piece is valid (see [`Space_::valid`]).
    #[verifier::loop_isolation(false)]
    pub fn is_valid(&self) -> (r: bool)
        ensures
            r == self.valid(),
    {
        match self {
            Space_::Comment(c) => {
                let text = c.as_str();
                let bytes = text.as_bytes();
                assert(bytes@ == text.spec_bytes());
                assert(bytes@ == vstd::utf8::encode_utf8(c@));
                let mut i: usize = 0;
                while i < bytes.len()
                    invariant
                        0 <= i <= bytes.len(),
                        bytes@ == vstd::utf8::encode_utf8(c@),
                        forall|j: int| 0 <= j < i ==> bytes@[j] != 0x0au8,
                    decreases bytes.len() - i,
                {
                    if bytes[i] == 0x0a {
                        assert(bytes@[i as int] == 0x0au8);
                        assert(bytes@.contains(0x0au8));
                        return false;
                    }
                    i = i + 1;
                }
                true
            },
            _ => true,
        }
    }
}

impl Space {
    /// A piece of whitespace, unless it is a comment with a newline in its text.
    pub fn new(piece: Space_) -> (r: Option<Space>)
        ensures
            r.is_some() == piece.valid(),
            r.is_some() ==> r.unwrap().0 == piece,
    {
        if piece.is_valid() {
            Some(Space(piece))
        } else {
            None
        }
    }
}

/// The bytes of the pieces from index `i` on.
pub open spec fn spaces_bytes(pieces: Seq<Space>, i: int) -> Seq<u8>
    decreases pieces.len() - i,
{
    if 0 <= i < pieces.len() {
        pieces[i].0.bytes() + spaces_bytes(pieces, i + 1)
    } else {
        Seq::empty()
    }
}

impl Spaces {
    /// The bytes of the run.
    pub open spec fn bytes(&self) -> Seq<u8> {
        spaces_bytes(self.0@, 0)
    }

    /// The canonic encoding has no whitespace.
    pub fn canonic(&self) -> (r: bool)
        ensures
            r == (self.0@.len() == 0),
    {
        self.0.len() == 0
    }

    /// The human-readable encoding takes any whitespace.
    pub fn human(&self) -> (r: bool)
        ensures
            r,
    {
        true
    }

    /// The compact encoding has no whitespace.
    pub fn compact(&self) -> (r: bool)
        ensures
            r == (self.0@.len() == 0),
    {
        self.0.len() == 0
    }

    pub fn encode(&self, out: &mut Vec<u8>)
        ensures
            final(out)@ == old(out)@ + self.bytes(),
    {
        let mut i: usize = 0;
        while i < self.0.len()
            invariant
                0 <= i <= self.0.len(),
                old(out)@ + self.bytes() == out@ + spaces_bytes(self.0@, i as int),
            decreases self.0.len() - i,
        {
            let ghost before = out@;
            self.0[i].0.encode(out);
            assert(before + spaces_bytes(self.0@, i as int) =~= out@ + spaces_bytes(
                self.0@,
                i + 1,
            ));
            i = i + 1;
        }
        assert(out@ + spaces_bytes(self.0@, i as int) =~= out@);
    }
}

/// Nil, in one of its two encodings.
#[derive(Debug)]
pub enum Nil {
    Human,
    Compact,
}

impl Nil {
    /// The bytes of the encoding: `nil`, or the byte 0x00.
    pub open spec fn bytes(&self) -> Seq<u8> {
        match self {
            Nil::Human => seq![0x6eu8, 0x69u8, 0x6cu8],
            Nil::Compact => seq![0x00u8],
        }
    }

    pub fn canonic(&self) -> (r: bool)
        ensures
            r == (self is Compact),
    {
        match self {
            Nil::Human => false,
            Nil::Compact => true,
        }
    }

    pub fn human(&self) -> (r: bool)
        ensures
            r == (self is Human),
    {
        match self {
            Nil::Human => true,
            Nil::Compact => false,
        }
    }

    pub fn compact(&self) -> (r: bool)
        ensures
            r == (self is Compact),
    {
        match self {
            Nil::Human => false,
            Nil::Compact => true,
        }
    }

    pub fn to_value(&self) -> (v: Value)
        ensures
            v@ == Tree::Nil,
    {
        Value::Nil
    }

    pub fn encode(&self, out: &mut Vec<u8>)
        ensures
            final(out)@ == old(out)@ + self.bytes(),
    {
        match self {
            Nil::Human => {
                out.push(0x6e);
                out.push(0x69);
                out.push(0x6c);
                assert(out@ =~= old(out)@ + self.bytes());
            },
            Nil::Compact => {
                out.push(0x00);
                assert(out@ =~= old(out)@ + self.bytes());
            },
        }
    }
}

/// A bool, in one of its two encodings.
#[derive(Debug)]
pub enum Bool {
    Human(bool),
    Compact(bool),
}

impl Bool {
    /// The bool that is encoded.
    pub open spec fn value(&self) -> bool {
        match self {
            Bool::Human(b) => *b,
            Bool::Compact(b) => *b,
        }
    }

    /// The bytes of the encoding: `true` or `false`, or the byte 0x21 or 0x20.
    pub open spec fn bytes(&self) -> Seq<u8> {
        match self {
            Bool::Human(b) => if *b {
                seq![0x74u8, 0x72u8, 0x75u8, 0x65u8]
            } else {
                seq![0x66u8, 0x61u8, 0x6cu8, 0x73u8, 0x65u8]
            },
            Bool::Compact(b) => if *b {
                seq![0x21u8]
            } else {
                seq![0x20u8]
            },
        }
    }

    pub fn canonic(&self) -> (r: bool)
        ensures
            r == (self is Compact),
    {
        match self {
            Bool::Human(_) => false,
            Bool::Compact(_) => true,
        }
    }

    pub fn human(&self) -> (r: bool)
        ensures
            r == (self is Human),
    {
        match self {
            Bool::Human(_) => true,
            Bool::Compact(_) => false,
        }
    }

    pub fn compact(&self) -> (r: bool)
        ensures
            r == (self is Compact),
    {
        match self {
            Bool::Human(_) => false,
            Bool::Compact(_) => true,
        }
    }

    pub fn to_value(&self) -> (v: Value)
        ensures
            v@ == Tree::Bool(self.value()),
    {
        match self {
            Bool::Human(b) => Value::Bool(*b),
            Bool::Compact(b) => Value::Bool(*b),
        }
    }

    pub fn encode(&self, out: &mut Vec<u8>)
        ensures
            final(out)@ == old(out)@ + self.bytes(),
    {
        match self {
            Bool::Human(b) => {
                if *b {
                    out.push(0x74);
                    out.push(0x72);
                    out.push(0x75);
                    out.push(0x65);
                } else {
                    out.push(0x66);
                    out.push(0x61);
                    out.push(0x6c);
                    out.push(0x73);
                    out.push(0x65);
                }
                assert(out@ =~= old(out)@ + self.bytes());
            },
            Bool::Compact(b) => {
                if *b {
                    out.push(0x21);
                } else {
                    out.push(0x20);
                }
                assert(out@ =~= old(out)@ + self.bytes());
            },
        }
    }
}

/// The base of a human-readable int.
#[derive(Debug)]
pub enum Base {
    Binary,
    /// Hexadecimal; the digits at the given places, counted from the first digit after the
    /// prefix, are written in upper case.
    Hex(BTreeSet<usize>),
    Decimal,
}

/// An int, in one of its encodings.
#[derive(Debug)]
pub enum Int {
    /// Human-readable: in the given base if the int is not negative, and in decimal if it
    /// is; with a `+` before a decimal int that is not negative, if asked for; with
    /// `leading_zeros` zeros before the digits; and after the digit at place `i`,
    /// `underscores[i]` underscores, where there is such an entry.
    Human {
        n: i64,
        explicit_sign: bool,
        base: Base,
        underscores: BTreeMap<usize, u8>,
        leading_zeros: u8,
    },
    /// Compact: in at least `bytes` following bytes, and in no fewer than the int needs.
    Compact { n: i64, bytes: u8 },
}

/// The width that stands for a wish of `wish` following bytes: the next of 0, 1, 2, 4 and 8
/// that is not above it, and not below `least`.
pub open spec fn chosen_width(least: nat, wish: nat) -> nat {
    let w = if wish < least {
        least
    } else {
        wish
    };
    if w == 3 {
        2
    } else if 5 <= w <= 7 {
        4
    } else if w > 8 {
        8
    } else {
        w
    }
}

/// The upper-case form of a lower-case hexadecimal digit; other bytes as they are.
pub open spec fn upper(b: u8) -> u8 {
    if 0x61 <= b <= 0x66 {
        (b - 0x20) as u8
    } else {
        b
    }
}

/// The digits with those at the given places in upper case.
pub open spec fn capitalised(ds: Seq<u8>, places: Set<usize>) -> Seq<u8> {
    Seq::new(
        ds.len(),
        |i: int|
            if places.contains(i as usize) {
                upper(ds[i])
            } else {
                ds[i]
            },
    )
}

/// The number of underscores after the digit at place `i`.
pub open spec fn underscores_at(underscores: Map<usize, u8>, i: int) -> nat {
    if underscores.contains_key(i as usize) {
        underscores[i as usize] as nat
    } else {
        0
    }
}

/// The digits from place `i` on, each followed by its underscores.
pub open spec fn underscored(ds: Seq<u8>, underscores: Map<usize, u8>, i: int) -> Seq<u8>
    decreases ds.len() - i,
{
    if 0 <= i < ds.len() {
        seq![ds[i]] + Seq::new(underscores_at(underscores, i), |j: int| 0x5fu8) + underscored(
            ds,
            underscores,
            i + 1,
        )
    } else {
        Seq::empty()
    }
}

impl Int {
    /// The int that is encoded.
    pub open spec fn value(&self) -> i64 {
        match self {
            Int::Human { n, .. } => *n,
            Int::Compact { n, .. } => *n,
        }
    }

    /// The sign of the human-readable form.
    pub open spec fn sign(n: i64, explicit_sign: bool, base: Base) -> Seq<u8> {
        if n < 0 {
            seq![0x2du8]
        } else if explicit_sign && base is Decimal {
            seq![0x2bu8]
        } else {
            Seq::empty()
        }
    }

    /// The prefix of the human-readable form: `0b` or `0x` before an int that is not
    /// negative and not in decimal.
    pub open spec fn prefix(n: i64, base: Base) -> Seq<u8> {
        if n < 0 {
            Seq::empty()
        } else {
            match base {
                Base::Binary => seq![0x30u8, 0x62u8],
                Base::Hex(_) => seq![0x30u8, 0x78u8],
                Base::Decimal => Seq::empty(),
            }
        }
    }

    /// The digits of the human-readable form, leading zeros included.
    pub open spec fn body(n: i64, base: Base, leading_zeros: u8) -> Seq<u8> {
        let zeros = Seq::new(leading_zeros as nat, |j: int| 0x30u8);
        if n < 0 {
            zeros + digits((-n) as nat, 10)
        } else {
            match base {
                Base::Binary => zeros + digits(n as nat, 2),
                Base::Hex(places) => capitalised(zeros + digits(n as nat, 16), places@),
                Base::Decimal => zeros + digits(n as nat, 10),
            }
        }
    }

    /// The bytes of the encoding.
    pub open spec fn bytes(&self) -> Seq<u8> {
        match self {
            Int::Human { n, explicit_sign, base, underscores, leading_zeros } => Int::sign(
                *n,
                *explicit_sign,
                *base,
            ) + Int::prefix(*n, *base) + underscored(
                Int::body(*n, *base, *leading_zeros),
                underscores@,
                0,
            ),
            Int::Compact { n, bytes } => int_bytes(
                *n as int,
                chosen_width(int_width(*n as int), *bytes as nat),
            ),
        }
    }

    /// Whether the encoding is the canonic one: compact, and in the least width.
    pub fn canonic(&self) -> (r: bool)
        ensures
            r == (self is Compact && chosen_width(
                int_width(self.value() as int),
                self->Compact_bytes as nat,
            ) == int_width(self.value() as int)),
    {
        match self {
            Int::Human { .. } => false,
            Int::Compact { n, bytes } => {
                if 0 <= *n && *n <= 27 {
                    *bytes <= 0
                } else if -128 <= *n && *n <= 127 {
                    *bytes <= 1
                } else if -32768 <= *n && *n <= 32767 {
                    *bytes <= 3
                } else if -2147483648 <= *n && *n <= 2147483647 {
                    *bytes <= 7
                } else {
                    true
                }
            },
        }
    }

    pub fn human(&self) -> (r: bool)
        ensures
            r == (self is Human),
    {
        match self {
            Int::Human { .. } => true,
            Int::Compact { .. } => false,
        }
    }

    pub fn compact(&self) -> (r: bool)
        ensures
            r == (self is Compact),
    {
        match self {
            Int::Human { .. } => false,
            Int::Compact { .. } => true,
        }
    }

    pub fn to_value(&self) -> (v: Value)
        ensures
            v@ == Tree::Int(self.value()),
    {
        match self {
            Int::Human { n, .. } => Value::Int(*n),
            Int::Compact { n, .. } => Value::Int(*n),
        }
    }

    pub fn encode(&self, out: &mut Vec<u8>)
        ensures
            final(out)@ == old(out)@ + self.bytes(),
    {
        match self {
            Int::Human { n, explicit_sign, base, underscores, leading_zeros } => {
                if *n < 0 {
                    out.push(0x2d);
                } else if *explicit_sign {
                    if let Base::Decimal = base {
                        out.push(0x2b);
                    }
                }
                assert(out@ =~= old(out)@ + Int::sign(*n, *explicit_sign, *base));
                let ghost signed = out@;
                if *n >= 0 {
                    match base {
                        Base::Binary => {
                            out.push(0x30);
                            out.push(0x62);
                        },
                        Base::Hex(_) => {
                            out.push(0x30);
                            out.push(0x78);
                        },
                        Base::Decimal => {},
                    }
                }
                assert(out@ =~= signed + Int::prefix(*n, *base));
                let ghost prefixed = out@;

                let mut tmp: Vec<u8> = Vec::new();
                push_repeat(&mut tmp, 0x30, *leading_zeros as usize);
                if *n >= 0 {
                    match base {
                        Base::Binary => {
                            push_digits(&mut tmp, *n as u64, 2);
                        },
                        Base::Hex(places) => {
                            push_digits(&mut tmp, *n as u64, 16);
                            let mut tmp2: Vec<u8> = Vec::new();
                            let mut i: usize = 0;
                            while i < tmp.len()
                                invariant
                                    0 <= i <= tmp.len(),
                                    tmp2@ == capitalised(tmp@, places@).subrange(0, i as int),
                                decreases tmp.len() - i,
                            {
                                let c = tmp[i];
                                if places.contains(&i) && 0x61 <= c && c <= 0x66 {
                                    tmp2.push(c - 0x20);
                                } else {
                                    tmp2.push(c);
                                }
                                assert(tmp2@ =~= capitalised(tmp@, places@).subrange(0, i + 1));
                                i = i + 1;
                            }
                            assert(capitalised(tmp@, places@).subrange(0, i as int)
                                =~= capitalised(tmp@, places@));
                            tmp = tmp2;
                        },
                        Base::Decimal => {
                            push_digits(&mut tmp, *n as u64, 10);
                        },
                    }
                } else {
                    push_digits(&mut tmp, magnitude(*n), 10);
                }
                assert(tmp@ =~= Int::body(*n, *base, *leading_zeros));

                let mut i: usize = 0;
                while i < tmp.len()
                    invariant
                        0 <= i <= tmp.len(),
                        prefixed + underscored(tmp@, underscores@, 0) == out@ + underscored(
                            tmp@,
                            underscores@,
                            i as int,
                        ),
                    decreases tmp.len() - i,
                {
                    let ghost before = out@;
                    out.push(tmp[i]);
                    match underscores.get(&i) {
                        Some(m) => {
                            push_repeat(out, 0x5f, *m as usize);
                        },
                        None => {},
                    }
                    assert(before + underscored(tmp@, underscores@, i as int) =~= out@
                        + underscored(tmp@, underscores@, i + 1));
                    i = i + 1;
                }
                assert(out@ + underscored(tmp@, underscores@, i as int) =~= out@);
                assert(out@ =~= old(out)@ + self.bytes());
            },
            Int::Compact { n, bytes } => {
                proof {
                    lemma_pow256();
                }
                let least: u8 = if 0 <= *n && *n <= 27 {
                    0
                } else if -128 <= *n && *n <= 127 {
                    1
                } else if -32768 <= *n && *n <= 32767 {
                    2
                } else if -2147483648 <= *n && *n <= 2147483647 {
                    4
                } else {
                    8
                };
                let mut width = if *bytes < least {
                    least
                } else {
                    *bytes
                };
                if width == 3 {
                    width = 2;
                } else if width >= 5 && width <= 7 {
                    width = 4
                } else if width > 8 {
                    width = 8;
                }
                if width == 0 {
                    out.push(0x60 + (*n as u8));
                } else if width == 1 {
                    out.push(0x7c);
                    let u: u64 = if *n >= 0 {
                        *n as u64
                    } else {
                        (*n + 0x100) as u64
                    };
                    crate::compact::wire::push_be(out, u, 1);
                } else if width == 2 {
                    out.push(0x7d);
                    let u: u64 = if *n >= 0 {
                        *n as u64
                    } else {
                        (*n + 0x1_0000) as u64
                    };
                    crate::compact::wire::push_be(out, u, 2);
                } else if width == 4 {
                    out.push(0x7e);
                    let u: u64 = if *n >= 0 {
                        *n as u64
                    } else {
                        (*n + 0x1_0000_0000) as u64
                    };
                    crate::compact::wire::push_be(out, u, 4);
                } else {
                    out.push(0x7f);
                    crate::compact::wire::push_be(out, to_unsigned(*n), 8);
                }
                assert(out@ =~= old(out)@ + self.bytes());
            },
        }
    }
}

/// A value together with whitespace before it and one chosen encoding.
#[derive(Debug)]
pub enum TestValue {
    Nil(Spaces, Nil),
    Bool(Spaces, Bool),
    Int(Spaces, Int),
}

impl TestValue {
    /// The bytes of the encoding: the whitespace, then the value.
    pub open spec fn bytes(&self) -> Seq<u8> {
        match self {
            TestValue::Nil(s, v) => s.bytes() + v.bytes(),
            TestValue::Bool(s, v) => s.bytes() + v.bytes(),
            TestValue::Int(s, v) => s.bytes() + v.bytes(),
        }
    }

    /// The value that is encoded.
    pub open spec fn value(&self) -> Tree {
        match self {
            TestValue::Nil(_, _) => Tree::Nil,
            TestValue::Bool(_, v) => Tree::Bool(v.value()),
            TestValue::Int(_, v) => Tree::Int(v.value()),
        }
    }

    /// Whether the encoding is the canonic one: no whitespace, and the value in its canonic
    /// encoding.
    pub open spec fn is_canonic(&self) -> bool {
        match self {
            TestValue::Nil(s, v) => s.0@.len() == 0 && v is Compact,
            TestValue::Bool(s, v) => s.0@.len() == 0 && v is Compact,
            TestValue::Int(s, v) => s.0@.len() == 0 && v is Compact && chosen_width(
                int_width(v.value() as int),
                v->Compact_bytes as nat,
            ) == int_width(v.value() as int),
        }
    }

    /// Whether the encoding is a compact one: no whitespace, and the value in a compact
    /// encoding.
    pub open spec fn is_compact(&self) -> bool {
        match self {
            TestValue::Nil(s, v) => s.0@.len() == 0 && v is Compact,
            TestValue::Bool(s, v) => s.0@.len() == 0 && v is Compact,
            TestValue::Int(s, v) => s.0@.len() == 0 && v is Compact,
        }
    }

    /// Whether the encoding is a human-readable one: the value as text, after any
    /// whitespace.
    pub open spec fn is_human(&self) -> bool {
        match self {
            TestValue::Nil(_, v) => v is Human,
            TestValue::Bool(_, v) => v is Human,
            TestValue::Int(_, v) => v is Human,
        }
    }

    /// Whether the canonic decoder accepts the encoding.
    pub fn canonic(&self) -> (r: bool)
        ensures
            r == self.is_canonic(),
    {
        match self {
            TestValue::Nil(s, v) => s.canonic() && v.canonic(),
            TestValue::Bool(s, v) => s.canonic() && v.canonic(),
            TestValue::Int(s, v) => s.canonic() && v.canonic(),
        }
    }

    /// Whether the human-readable decoder accepts the encoding.
    pub fn human(&self) -> (r: bool)
        ensures
            r == self.is_human(),
    {
        match self {
            TestValue::Nil(s, v) => s.human() && v.human(),
            TestValue::Bool(s, v) => s.human() && v.human(),
            TestValue::Int(s, v) => s.human() && v.human(),
        }
    }

    /// Whether the compact decoder accepts the encoding.
    pub fn compact(&self) -> (r: bool)
        ensures
            r == self.is_compact(),
    {
        match self {
            TestValue::Nil(s, v) => s.compact() && v.compact(),
            TestValue::Bool(s, v) => s.compact() && v.compact(),
            TestValue::Int(s, v) => s.compact() && v.compact(),
        }
    }

    /// The value that is encoded.
    pub fn to_value(&self) -> (v: Value)
        ensures
            v@ == self.value(),
            v.wf(),
    {
        match self {
            TestValue::Nil(_, v) => v.to_value(),
            TestValue::Bool(_, v) => v.to_value(),
            TestValue::Int(_, v) => v.to_value(),
        }
    }

    pub fn encode(&self, out: &mut Vec<u8>)
        ensures
            final(out)@ == old(out)@ + self.bytes(),
    {
        match self {
            TestValue::Nil(s, v) => {
                s.encode(out);
                v.encode(out);
                assert(out@ =~= old(out)@ + self.bytes());
            },
            TestValue::Bool(s, v) => {
                s.encode(out);
                v.encode(out);
                assert(out@ =~= old(out)@ + self.bytes());
            },
            TestValue::Int(s, v) => {
                s.encode(out);
                v.encode(out);
                assert(out@ =~= old(out)@ + self.bytes());
            },
        }
    }
}

} // verus!

//! The encoder of the compact encoding. What it writes for a value is canonic.
use crate::compact::wire::{
    be_bytes, count_bytes, count_width, head_bytes, int_bytes, int_width, lemma_pow256,
    push_be, to_unsigned, MAX_COUNT, TAG_ARRAY, TAG_BOOL, TAG_BYTES, TAG_FLOAT, TAG_INT,
    TAG_MAP, TAG_NIL,
};
use crate::value::{float_is_nan, normal_bits, tree_entries, trees, Tree, Value, NAN_BITS};
use crate::text::push_all;
use vstd::prelude::*;
use vstd::string::StringSliceAdditionalSpecFns;

verus! {

/// Everything that can go wrong during encoding.
#[derive(Debug, PartialEq, Eq, Clone)]
pub enum EncodeError {
    /// A message of the caller's own; the encoder itself never gives it.
    Message(String),
    /// An unsigned integer above 2^63 - 1.
    OutOfBoundsInt,
    /// A collection of more than 2^63 - 1 items.
    OutOfBoundsCollection,
    /// A collection whose length is not known when its encoding begins.
    UnknownLength,
}

/// Whether the value can be encoded: none of its arrays and maps has more than 2^63 - 1
/// items.
pub open spec fn encodable(t: Tree) -> bool
    decreases t,
{
    match t {
        Tree::Array(xs) => xs.len() <= MAX_COUNT && forall|i: int|
            0 <= i < xs.len() ==> encodable(#[trigger] xs[i]),
        Tree::Mapping(es) => es.len() <= MAX_COUNT && forall|i: int|
            0 <= i < es.len() ==> encodable((#[trigger] es[i]).0) && encodable(es[i].1),
        _ => true,
    }
}

/// The canonic encoding of a value: every int and every count in the least width, a float
/// by its normal bits, an array under the array tag, a map under the map tag with its entries
/// in their order.
pub open spec fn canonic(t: Tree) -> Seq<u8>
    decreases t, 0nat, 0int,
{
    match t {
        Tree::Nil => seq![TAG_NIL],
        Tree::Bool(b) => seq![
            if b {
                0x21u8
            } else {
                TAG_BOOL
            },
        ],
        Tree::Float(bits) => seq![TAG_FLOAT] + be_bytes(normal_bits(bits) as nat, 8),
        Tree::Int(n) => int_bytes(n as int, int_width(n as int)),
        Tree::Array(xs) => count_bytes(TAG_ARRAY, xs.len(), count_width(xs.len()))
            + canonic_items(xs, 0),
        Tree::Mapping(es) => count_bytes(TAG_MAP, es.len(), count_width(es.len()))
            + canonic_entries(es, 0),
    }
}

/// The canonic encodings of the items from index `i` on, one after the other.
pub open spec fn canonic_items(xs: Seq<Tree>, i: int) -> Seq<u8>
    decreases xs, 1nat, xs.len() - i,
{
    if 0 <= i < xs.len() {
        canonic(xs[i]) + canonic_items(xs, i + 1)
    } else {
        Seq::empty()
    }
}

/// The canonic encodings of the entries from index `i` on: each key, then its value.
pub open spec fn canonic_entries(es: Seq<(Tree, Tree)>, i: int) -> Seq<u8>
    decreases es, 1nat, es.len() - i,
{
    if 0 <= i < es.len() {
        canonic(es[i].0) + canonic(es[i].1) + canonic_entries(es, i + 1)
    } else {
        Seq::empty()
    }
}

/// Writes a tag byte and the number `u`, in `w` following bytes or as the argument.
fn push_head(out: &mut Vec<u8>, tag: u8, u: u64, w: u8)
    requires
        tag % 32 == 0,
        w == 0 ==> u <= 27,
        w == 0 || w == 1 || w == 2 || w == 4 || w == 8,
    ensures
        final(out)@ == old(out)@ + head_bytes(tag, u as nat, w as nat),
{
    if w == 0 {
        out.push(tag + (u as u8));
        assert(out@ =~= old(out)@ + head_bytes(tag, u as nat, w as nat));
    } else {
        let arg: u8 = if w == 1 {
            28
        } else if w == 2 {
            29
        } else if w == 4 {
            30
        } else {
            31
        };
        out.push(tag + arg);
        push_be(out, u, w);
        assert(out@ =~= old(out)@ + head_bytes(tag, u as nat, w as nat));
    }
}

/// Writes the canonic encoding of an int.
pub fn push_int(out: &mut Vec<u8>, n: i64)
    ensures
        final(out)@ == old(out)@ + int_bytes(n as int, int_width(n as int)),
{
    proof {
        lemma_pow256();
    }
    if 0 <= n && n <= 27 {
        push_head(out, TAG_INT, n as u64, 0);
    } else if -0x80 <= n && n <= 0x7F {
        let u: u64 = if n >= 0 {
            n as u64
        } else {
            (n + 0x100) as u64
        };
        push_head(out, TAG_INT, u, 1);
    } else if -0x8000 <= n && n <= 0x7FFF {
        let u: u64 = if n >= 0 {
            n as u64
        } else {
            (n + 0x1_0000) as u64
        };
        push_head(out, TAG_INT, u, 2);
    } else if -0x8000_0000 <= n && n <= 0x7FFF_FFFF {
        let u: u64 = if n >= 0 {
            n as u64
        } else {
            (n + 0x1_0000_0000) as u64
        };
        push_head(out, TAG_INT, u, 4);
    } else {
        push_head(out, TAG_INT, to_unsigned(n), 8);
    }
}

/// Writes a count under the given tag, in the least width. Counts above 2^63 - 1 are
/// refused, and nothing is written for them.
pub fn push_count(out: &mut Vec<u8>, n: usize, tag: u8) -> (r: Result<(), EncodeError>)
    requires
        tag % 32 == 0,
    ensures
        n <= MAX_COUNT ==> r == Ok::<(), EncodeError>(()) && final(out)@ == old(out)@
            + count_bytes(tag, n as nat, count_width(n as nat)),
        n > MAX_COUNT ==> r == Err::<(), EncodeError>(EncodeError::OutOfBoundsCollection)
            && final(out)@ == old(out)@,
{
    let n64 = n as u64;
    if n64 <= 27 {
        push_head(out, tag, n64, 0);
    } else if n64 <= 0xFF {
        push_head(out, tag, n64, 1);
    } else if n64 <= 0xFFFF {
        push_head(out, tag, n64, 2);
    } else if n64 <= 0xFFFF_FFFF {
        push_head(out, tag, n64, 4);
    } else if n64 <= MAX_COUNT {
        push_head(out, tag, n64, 8);
    } else {
        return Err(EncodeError::OutOfBoundsCollection);
    }
    Ok(())
}

/// Writes the canonic encoding of a value. Where the value cannot be encoded, what was
/// written up to the collection that is too long stays in `out`.
#[verifier::loop_isolation(false)]
pub fn push_value(out: &mut Vec<u8>, v: &Value) -> (r: Result<(), EncodeError>)
    requires
        v.wf(),
    ensures
        encodable(v@) ==> r == Ok::<(), EncodeError>(()) && final(out)@ == old(out)@ + canonic(
            v@,
        ),
        !encodable(v@) ==> r == Err::<(), EncodeError>(EncodeError::OutOfBoundsCollection),
    decreases v,
{
    match v {
        Value::Nil => {
            out.push(TAG_NIL);
            assert(out@ =~= old(out)@ + canonic(v@));
            Ok(())
        },
        Value::Bool(b) => {
            out.push(
                if *b {
                    0x21
                } else {
                    TAG_BOOL
                },
            );
            assert(out@ =~= old(out)@ + canonic(v@));
            Ok(())
        },
        Value::Float(bits) => {
            out.push(TAG_FLOAT);
            let normal = if float_is_nan(*bits) {
                NAN_BITS
            } else {
                *bits
            };
            push_be(out, normal, 8);
            proof {
                crate::value::lemma_view_normal(*v);
            }
            assert(out@ =~= old(out)@ + canonic(v@));
            Ok(())
        },
        Value::Int(n) => {
            push_int(out, *n);
            Ok(())
        },
        Value::Array(xs) => {
            let ghost t = trees(xs@);
            assert(v@ == Tree::Array(t));
            assert(v@.wf() == (forall|i: int| 0 <= i < t.len() ==> (#[trigger] t[i]).wf()));
            assert(encodable(v@) == (t.len() <= MAX_COUNT && forall|i: int|
                0 <= i < t.len() ==> encodable(#[trigger] t[i])));
            match push_count(out, xs.len(), TAG_ARRAY) {
                Err(e) => {
                    return Err(e);
                },
                Ok(()) => {},
            }
            let mut i: usize = 0;
            while i < xs.len()
                invariant
                    0 <= i <= xs.len(),
                    forall|j: int| 0 <= j < i ==> encodable(#[trigger] t[j]),
                    forall|j: int| 0 <= j < t.len() ==> (#[trigger] t[j]).wf(),
                    old(out)@ + canonic(v@) == out@ + canonic_items(t, i as int),
                decreases xs.len() - i,
            {
                assert(t[i as int] == xs@[i as int]@);
                let ghost before = out@;
                match push_value(out, &xs[i]) {
                    Err(e) => {
                        return Err(e);
                    },
                    Ok(()) => {},
                }
                assert(before + canonic_items(t, i as int) =~= out@ + canonic_items(t, i + 1));
                i = i + 1;
            }
            assert(out@ + canonic_items(t, i as int) =~= out@);
            Ok(())
        },
        Value::Mapping(es) => {
            let ghost t = tree_entries(es@);
            assert(v@ == Tree::Mapping(t));
            assert(v@.wf() == crate::order::entries_wf(t));
            assert(encodable(v@) == (t.len() <= MAX_COUNT && forall|i: int|
                0 <= i < t.len() ==> encodable((#[trigger] t[i]).0) && encodable(t[i].1)));
            match push_count(out, es.len(), TAG_MAP) {
                Err(e) => {
                    return Err(e);
                },
                Ok(()) => {},
            }
            let mut i: usize = 0;
            while i < es.len()
                invariant
                    0 <= i <= es.len(),
                    forall|j: int| 0 <= j < i ==> encodable((#[trigger] t[j]).0) && encodable(t[j].1),
                    forall|j: int| 0 <= j < t.len() ==> (#[trigger] t[j]).0.wf() && t[j].1.wf(),
                    old(out)@ + canonic(v@) == out@ + canonic_entries(t, i as int),
                decreases es.len() - i,
            {
                assert(t[i as int] == (es@[i as int].0@, es@[i as int].1@));
                let ghost before = out@;
                match push_value(out, &es[i].0) {
                    Err(e) => {
                        return Err(e);
                    },
                    Ok(()) => {},
                }
                match push_value(out, &es[i].1) {
                    Err(e) => {
                        return Err(e);
                    },
                    Ok(()) => {},
                }
                assert(before + canonic_entries(t, i as int) =~= out@ + canonic_entries(t, i + 1));
                i = i + 1;
            }
            assert(out@ + canonic_entries(t, i as int) =~= out@);
            Ok(())
        },
    }
}

/// The canonic encoding of a valid value: the bytes from which the canonic decoder gives
/// the value back.
pub fn to_vec(value: &Value) -> (r: Result<Vec<u8>, EncodeError>)
    requires
        value.wf(),
    ensures
        encodable(value@) ==> r.is_ok() && r.unwrap()@ == canonic(value@)
            && crate::compact::de::decode(r.unwrap()@, 0, true) == Ok::<
            (Tree, int),
            (int, crate::compact::de::DecodeError),
        >((value@, r.unwrap()@.len() as int)),
        !encodable(value@) ==> r == Err::<Vec<u8>, EncodeError>(EncodeError::OutOfBoundsCollection),
{
    let mut out: Vec<u8> = Vec::new();
    match push_value(&mut out, value) {
        Ok(()) => {
            assert(out@ =~= canonic(value@));
            proof {
                crate::compact::laws::law_decode_inverts_encode(*value, Seq::empty());
                assert(canonic(value@) + Seq::<u8>::empty() =~= canonic(value@));
            }
            Ok(out)
        },
        Err(e) => Err(e),
    }
}

/// The encoding of a byte string: its count under the byte string tag, then its bytes.
pub open spec fn bytes_encoding(bytes: Seq<u8>) -> Seq<u8> {
    count_bytes(TAG_BYTES, bytes.len(), count_width(bytes.len())) + bytes
}

/// The first byte of a map of one entry.
pub const ONE_ENTRY: u8 = 0xE1;

/// The head of a variant with data: the first byte of a map of one entry, and the name of
/// the variant as a byte string.
pub open spec fn variant_head(name: Seq<u8>) -> Seq<u8> {
    seq![ONE_ENTRY] + bytes_encoding(name)
}

/// A structure that serializes valuable values in the compact encoding, kind by kind. What
/// it writes for ints, floats, counts and values is canonic; strings and bytes it writes as
/// byte strings, which the canonic encoding has not.
pub struct VVSerializer {
    out: Vec<u8>,
}

impl View for VVSerializer {
    type V = Seq<u8>;

    closed spec fn view(&self) -> Seq<u8> {
        self.out@
    }
}

impl VVSerializer {
    /// A serializer that has written nothing yet.
    pub fn new() -> (s: Self)
        ensures
            s@ == Seq::<u8>::empty(),
    {
        VVSerializer { out: Vec::new() }
    }

    /// What has been written.
    pub fn into_vec(self) -> (out: Vec<u8>)
        ensures
            out@ == self@,
    {
        self.out
    }

    /// Writes a count under the given tag, in the least width. A count above 2^63 - 1 is
    /// refused, and nothing is written for it.
    pub fn serialize_count(&mut self, n: usize, tag: u8) -> (r: Result<(), EncodeError>)
        requires
            tag % 32 == 0,
        ensures
            n <= MAX_COUNT ==> r == Ok::<(), EncodeError>(()) && final(self)@ == old(self)@
                + count_bytes(tag, n as nat, count_width(n as nat)),
            n > MAX_COUNT ==> r == Err::<(), EncodeError>(EncodeError::OutOfBoundsCollection)
                && final(self)@ == old(self)@,
    {
        push_count(&mut self.out, n, tag)
    }

    pub fn serialize_bool(&mut self, v: bool)
        ensures
            final(self)@ == old(self)@ + canonic(Tree::Bool(v)),
    {
        self.out.push(
            if v {
                0x21
            } else {
                TAG_BOOL
            },
        );
        assert(self.out@ =~= old(self)@ + canonic(Tree::Bool(v)));
    }

    pub fn serialize_i8(&mut self, v: i8)
        ensures
            final(self)@ == old(self)@ + canonic(Tree::Int(v as i64)),
    {
        self.serialize_i64(v as i64)
    }

    pub fn serialize_i16(&mut self, v: i16)
        ensures
            final(self)@ == old(self)@ + canonic(Tree::Int(v as i64)),
    {
        self.serialize_i64(v as i64)
    }

    pub fn serialize_i32(&mut self, v: i32)
        ensures
            final(self)@ == old(self)@ + canonic(Tree::Int(v as i64)),
    {
        self.serialize_i64(v as i64)
    }

    /// Writes an int in the least width.
    pub fn serialize_i64(&mut self, v: i64)
        ensures
            final(self)@ == old(self)@ + canonic(Tree::Int(v)),
    {
        push_int(&mut self.out, v);
    }

    pub fn serialize_u8(&mut self, v: u8)
        ensures
            final(self)@ == old(self)@ + canonic(Tree::Int(v as i64)),
    {
        self.serialize_i64(v as i64)
    }

    pub fn serialize_u16(&mut self, v: u16)
        ensures
            final(self)@ == old(self)@ + canonic(Tree::Int(v as i64)),
    {
        self.serialize_i64(v as i64)
    }

    pub fn serialize_u32(&mut self, v: u32)
        ensures
            final(self)@ == old(self)@ + canonic(Tree::Int(v as i64)),
    {
        self.serialize_i64(v as i64)
    }

    /// Writes an unsigned integer as an int. One above 2^63 - 1 is refused, and nothing is
    /// written for it.
    pub fn serialize_u64(&mut self, v: u64) -> (r: Result<(), EncodeError>)
        ensures
            v <= MAX_COUNT ==> r == Ok::<(), EncodeError>(()) && final(self)@ == old(self)@
                + canonic(Tree::Int(v as i64)),
            v > MAX_COUNT ==> r == Err::<(), EncodeError>(EncodeError::OutOfBoundsInt)
                && final(self)@ == old(self)@,
    {
        if v <= MAX_COUNT {
            self.serialize_i64(v as i64);
            Ok(())
        } else {
            Err(EncodeError::OutOfBoundsInt)
        }
    }

    /// Writes the float with the given bits; any NaN as the one with all bits set.
    pub fn serialize_f64(&mut self, bits: u64)
        ensures
            final(self)@ == old(self)@ + canonic(Tree::Float(bits)),
    {
        self.out.push(TAG_FLOAT);
        let normal = if float_is_nan(bits) {
            NAN_BITS
        } else {
            bits
        };
        push_be(&mut self.out, normal, 8);
        assert(self.out@ =~= old(self)@ + canonic(Tree::Float(bits)));
    }

    /// Writes a char as the int that is its scalar value.
    pub fn serialize_char(&mut self, v: char)
        ensures
            final(self)@ == old(self)@ + canonic(Tree::Int(v as i64)),
    {
        self.serialize_i64(v as u32 as i64)
    }

    /// Writes a string as the byte string of its UTF-8 encoding.
    pub fn serialize_str(&mut self, v: &str) -> (r: Result<(), EncodeError>)
        ensures
            v.spec_bytes().len() <= MAX_COUNT ==> r == Ok::<(), EncodeError>(()) && final(self)@
                == old(self)@ + bytes_encoding(v.spec_bytes()),
            v.spec_bytes().len() > MAX_COUNT ==> r == Err::<(), EncodeError>(
                EncodeError::OutOfBoundsCollection,
            ) && final(self)@ == old(self)@,
    {
        self.serialize_bytes(v.as_bytes())
    }

    /// Writes a byte string.
    pub fn serialize_bytes(&mut self, v: &[u8]) -> (r: Result<(), EncodeError>)
        ensures
            v@.len() <= MAX_COUNT ==> r == Ok::<(), EncodeError>(()) && final(self)@ == old(self)@
                + bytes_encoding(v@),
            v@.len() > MAX_COUNT ==> r == Err::<(), EncodeError>(
                EncodeError::OutOfBoundsCollection,
            ) && final(self)@ == old(self)@,
    {
        match push_count(&mut self.out, v.len(), TAG_BYTES) {
            Err(e) => Err(e),
            Ok(()) => {
                push_all(&mut self.out, v);
                assert(self.out@ =~= old(self)@ + bytes_encoding(v@));
                Ok(())
            },
        }
    }

    /// Writes `None`: the string `None`.
    pub fn serialize_none(&mut self)
        ensures
            final(self)@ == old(self)@ + bytes_encoding(crate::compact::de::none_text()),
    {
        let none: [u8; 4] = [0x4E, 0x6F, 0x6E, 0x65];
        assert(none@ =~= crate::compact::de::none_text());
        let r = self.serialize_bytes(none.as_slice());
    }

    /// Writes the head of `Some`: the first byte of a map of one entry and the string
    /// `Some`, its key. The value is to follow.
    pub fn serialize_some(&mut self)
        ensures
            final(self)@ == old(self)@ + variant_head(crate::compact::de::some_text()),
    {
        let some: [u8; 4] = [0x53, 0x6F, 0x6D, 0x65];
        assert(some@ =~= crate::compact::de::some_text());
        self.out.push(ONE_ENTRY);
        let r = self.serialize_bytes(some.as_slice());
        assert(self.out@ =~= old(self)@ + variant_head(crate::compact::de::some_text()));
    }

    /// Writes nil.
    pub fn serialize_unit(&mut self)
        ensures
            final(self)@ == old(self)@ + canonic(Tree::Nil),
    {
        self.out.push(TAG_NIL);
        assert(self.out@ =~= old(self)@ + canonic(Tree::Nil));
    }

    /// Writes a variant without data: its name as a string.
    pub fn serialize_unit_variant(&mut self, variant: &str) -> (r: Result<(), EncodeError>)
        ensures
            variant.spec_bytes().len() <= MAX_COUNT ==> r == Ok::<(), EncodeError>(())
                && final(self)@ == old(self)@ + bytes_encoding(variant.spec_bytes()),
            variant.spec_bytes().len() > MAX_COUNT ==> r == Err::<(), EncodeError>(
                EncodeError::OutOfBoundsCollection,
            ) && final(self)@ == old(self)@,
    {
        self.serialize_str(variant)
    }

    /// Writes the head of a variant with data: the first byte of a map of one entry and the
    /// name of the variant, its key. The data is to follow.
    pub fn serialize_newtype_variant(&mut self, variant: &str) -> (r: Result<(), EncodeError>)
        ensures
            variant.spec_bytes().len() <= MAX_COUNT ==> r == Ok::<(), EncodeError>(())
                && final(self)@ == old(self)@ + variant_head(variant.spec_bytes()),
            variant.spec_bytes().len() > MAX_COUNT ==> r == Err::<(), EncodeError>(
                EncodeError::OutOfBoundsCollection,
            ) && final(self)@ == old(self)@,
    {
        if variant.as_bytes().len() as u64 > MAX_COUNT {
            return Err(EncodeError::OutOfBoundsCollection);
        }
        self.out.push(ONE_ENTRY);
        let r = self.serialize_str(variant);
        assert(self.out@ =~= old(self)@ + variant_head(variant.spec_bytes()));
        Ok(())
    }

    /// Writes the head of an array: its count. The items are to follow. An array of unknown
    /// length is refused.
    pub fn serialize_seq(&mut self, len: Option<usize>) -> (r: Result<(), EncodeError>)
        ensures
            match len {
                None => r == Err::<(), EncodeError>(EncodeError::UnknownLength) && final(self)@
                    == old(self)@,
                Some(n) => if n <= MAX_COUNT {
                    r == Ok::<(), EncodeError>(()) && final(self)@ == old(self)@ + count_bytes(
                        TAG_ARRAY,
                        n as nat,
                        count_width(n as nat),
                    )
                } else {
                    r == Err::<(), EncodeError>(EncodeError::OutOfBoundsCollection) && final(self)@ == old(self)@
                },
            },
    {
        match len {
            None => Err(EncodeError::UnknownLength),
            Some(n) => push_count(&mut self.out, n, TAG_ARRAY),
        }
    }

    /// Writes the head of a map: its count. The entries are to follow, each a key and a
    /// value. A map of unknown length is refused.
    pub fn serialize_map(&mut self, len: Option<usize>) -> (r: Result<(), EncodeError>)
        ensures
            match len {
                None => r == Err::<(), EncodeError>(EncodeError::UnknownLength) && final(self)@
                    == old(self)@,
                Some(n) => if n <= MAX_COUNT {
                    r == Ok::<(), EncodeError>(()) && final(self)@ == old(self)@ + count_bytes(
                        TAG_MAP,
                        n as nat,
                        count_width(n as nat),
                    )
                } else {
                    r == Err::<(), EncodeError>(EncodeError::OutOfBoundsCollection) && final(self)@ == old(self)@
                },
            },
    {
        match len {
            None => Err(EncodeError::UnknownLength),
            Some(n) => push_count(&mut self.out, n, TAG_MAP),
        }
    }

    /// Writes the canonic encoding of a valid value. Where the value cannot be encoded, what
    /// was written up to the collection that is too long stays written.
    pub fn serialize_value(&mut self, v: &Value) -> (r: Result<(), EncodeError>)
        requires
            v.wf(),
        ensures
            encodable(v@) ==> r == Ok::<(), EncodeError>(()) && final(self)@ == old(self)@
                + canonic(v@),
            !encodable(v@) ==> r == Err::<(), EncodeError>(EncodeError::OutOfBoundsCollection),
    {
        push_value(&mut self.out, v)
    }
}

} // verus!

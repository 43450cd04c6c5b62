//! Values together with one chosen compact encoding each, for testing decoders: the
//! encodings cover the freedoms that the compact encoding leaves (widths of ints and counts,
//! byte strings for arrays of bytes, sets for maps to nil, the order of entries).
use crate::compact::de::byte_items;
use crate::compact::wire::{
    be_bytes, count_bytes, count_width, int_bytes, int_width, push_be, MAX_COUNT,
};
use crate::entries::{insert, insert_entry, lemma_insert_wf};
use crate::order::{entries_wf, order, Order};
use crate::test_value::chosen_width;
use crate::text::push_all;
use crate::value::{float_is_nan, is_nan, normal_bits, tree_entries, trees, Tree, Value, NAN_BITS};
use vstd::prelude::*;

verus! {

/// An int, to be encoded in at least `bytes` following bytes.
#[derive(Debug)]
pub struct Int {
    pub n: i64,
    pub bytes: u8,
}

/// An array of bytes, to be encoded as a byte string whose count takes at least
/// `count_width` bytes.
#[derive(Debug)]
pub struct ByteString {
    pub elements: Vec<u8>,
    pub count_width: u8,
}

/// An array, its count to be encoded in at least `count_width` bytes.
#[derive(Debug)]
pub struct Array {
    pub elements: Vec<TestValue>,
    pub count_width: u8,
}

/// A map of the elements to nil, to be encoded as a set of the elements as they stand.
#[derive(Debug)]
pub struct SetOf {
    pub elements: Vec<TestValue>,
    pub count_width: u8,
}

/// A map, to be encoded with its entries as they stand. Of two entries with the same key
/// the later one counts.
#[derive(Debug)]
pub struct MapOf {
    pub elements: Vec<(TestValue, TestValue)>,
    pub count_width: u8,
}

/// A value together with the choices that fix one compact encoding of it. A float is held
/// by its bits.
#[derive(Debug)]
pub enum TestValue {
    Nil,
    Bool(bool),
    Int(Int),
    Float(u64),
    ByteString(ByteString),
    Array(Array),
    SetOf(SetOf),
    MapOf(MapOf),
}

/// The width of a count: the one wished for, but no less than the count needs.
pub open spec fn count_choice(n: nat, wish: u8) -> nat {
    chosen_width(count_width(n), wish as nat)
}

/// The encodings of the items from index `i` on, one after the other.
pub open spec fn items_bytes(xs: Seq<TestValue>, i: int) -> Seq<u8>
    decreases xs, 1nat, xs.len() - i,
{
    if 0 <= i < xs.len() {
        xs[i].bytes() + items_bytes(xs, i + 1)
    } else {
        Seq::empty()
    }
}

/// The encodings of the entries from index `i` on: each key, then its value.
pub open spec fn entries_bytes(es: Seq<(TestValue, TestValue)>, i: int) -> Seq<u8>
    decreases es, 1nat, es.len() - i,
{
    if 0 <= i < es.len() {
        es[i].0.bytes() + es[i].1.bytes() + entries_bytes(es, i + 1)
    } else {
        Seq::empty()
    }
}

/// The values of the items.
pub open spec fn items_values(xs: Seq<TestValue>) -> Seq<Tree>
    decreases xs, 1nat,
{
    Seq::new(
        xs.len(),
        |i: int|
            if 0 <= i < xs.len() {
                xs[i].value()
            } else {
                Tree::Nil
            },
    )
}

/// The entries of the map that binds the first `n` items to nil, one after the other.
pub open spec fn keys_value(xs: Seq<TestValue>, n: nat) -> Seq<(Tree, Tree)>
    decreases xs, 1nat, n,
{
    if n == 0 || n > xs.len() {
        Seq::empty()
    } else {
        insert(keys_value(xs, (n - 1) as nat), xs[n - 1].value(), Tree::Nil)
    }
}

/// The entries of the map that binds the first `n` keys to their values, one after the
/// other.
pub open spec fn entries_value(es: Seq<(TestValue, TestValue)>, n: nat) -> Seq<(Tree, Tree)>
    decreases es, 1nat, n,
{
    if n == 0 || n > es.len() {
        Seq::empty()
    } else {
        insert(entries_value(es, (n - 1) as nat), es[n - 1].0.value(), es[n - 1].1.value())
    }
}

impl TestValue {
    /// No collection in the value has more than 2^63 - 1 items.
    pub open spec fn valid(&self) -> bool
        decreases self, 0nat,
    {
        match self {
            TestValue::ByteString(b) => b.elements@.len() <= MAX_COUNT,
            TestValue::Array(a) => a.elements@.len() <= MAX_COUNT && forall|i: int|
                0 <= i < a.elements@.len() ==> (#[trigger] a.elements@[i]).valid(),
            TestValue::SetOf(a) => a.elements@.len() <= MAX_COUNT && forall|i: int|
                0 <= i < a.elements@.len() ==> (#[trigger] a.elements@[i]).valid(),
            TestValue::MapOf(a) => a.elements@.len() <= MAX_COUNT && forall|i: int|
                0 <= i < a.elements@.len() ==> (#[trigger] a.elements@[i]).0.valid()
                    && a.elements@[i].1.valid(),
            _ => true,
        }
    }

    /// The bytes of the chosen encoding.
    pub open spec fn bytes(&self) -> Seq<u8>
        decreases self, 0nat, 0int,
    {
        match self {
            TestValue::Nil => seq![0x00u8],
            TestValue::Bool(b) => seq![
                if *b {
                    0x21u8
                } else {
                    0x20u8
                },
            ],
            TestValue::Int(v) => int_bytes(
                v.n as int,
                chosen_width(int_width(v.n as int), v.bytes as nat),
            ),
            TestValue::Float(bits) => seq![0x40u8] + be_bytes(*bits as nat, 8),
            TestValue::ByteString(b) => count_bytes(
                0x80,
                b.elements@.len(),
                count_choice(b.elements@.len(), b.count_width),
            ) + b.elements@,
            TestValue::Array(a) => count_bytes(
                0xA0,
                a.elements@.len(),
                count_choice(a.elements@.len(), a.count_width),
            ) + items_bytes(a.elements@, 0),
            TestValue::SetOf(a) => count_bytes(
                0xC0,
                a.elements@.len(),
                count_choice(a.elements@.len(), a.count_width),
            ) + items_bytes(a.elements@, 0),
            TestValue::MapOf(a) => count_bytes(
                0xE0,
                a.elements@.len(),
                count_choice(a.elements@.len(), a.count_width),
            ) + entries_bytes(a.elements@, 0),
        }
    }

    /// The value that is encoded.
    pub open spec fn value(&self) -> Tree
        decreases self, 0nat, 0nat,
    {
        match self {
            TestValue::Nil => Tree::Nil,
            TestValue::Bool(b) => Tree::Bool(*b),
            TestValue::Int(v) => Tree::Int(v.n),
            TestValue::Float(bits) => Tree::Float(normal_bits(*bits)),
            TestValue::ByteString(b) => Tree::Array(byte_items(b.elements@)),
            TestValue::Array(a) => Tree::Array(items_values(a.elements@)),
            TestValue::SetOf(a) => Tree::Mapping(keys_value(a.elements@, a.elements@.len())),
            TestValue::MapOf(a) => Tree::Mapping(entries_value(a.elements@, a.elements@.len())),
        }
    }
}

impl Int {
    /// Whether the chosen encoding is the canonic one: in the least width.
    pub fn canonic(&self) -> (r: bool)
        ensures
            r == (chosen_width(int_width(self.n as int), self.bytes as nat) == int_width(
                self.n as int,
            )),
    {
        if 0 <= self.n && self.n <= 27 {
            self.bytes <= 0
        } else if -0x80 <= self.n && self.n <= 0x7F {
            self.bytes <= 1
        } else if -0x8000 <= self.n && self.n <= 0x7FFF {
            self.bytes <= 3
        } else if -0x8000_0000 <= self.n && self.n <= 0x7FFF_FFFF {
            self.bytes <= 7
        } else {
            true
        }
    }

    pub fn to_value(&self) -> (v: Value)
        ensures
            v@ == Tree::Int(self.n),
    {
        Value::Int(self.n)
    }

    pub fn encode(&self, out: &mut Vec<u8>)
        ensures
            final(out)@ == old(out)@ + int_bytes(
                self.n as int,
                chosen_width(int_width(self.n as int), self.bytes as nat),
            ),
    {
        let v = crate::test_value::Int::Compact { n: self.n, bytes: self.bytes };
        v.encode(out);
    }
}

/// Writes a count under the given tag in the width wished for, but in no less than the
/// count needs.
pub fn encode_count(n: usize, width: u8, mask: u8, out: &mut Vec<u8>)
    requires
        mask % 32 == 0,
    ensures
        final(out)@ == old(out)@ + count_bytes(mask, n as nat, count_choice(n as nat, width)),
{
    let n64 = n as u64;
    let least: u8 = if n64 <= 27 {
        0
    } else if n64 <= 0xFF {
        1
    } else if n64 <= 0xFFFF {
        2
    } else if n64 <= 0xFFFF_FFFF {
        4
    } else {
        8
    };
    let mut w = if width < least {
        least
    } else {
        width
    };
    if w == 3 {
        w = 2;
    } else if w >= 5 && w <= 7 {
        w = 4
    } else if w > 8 {
        w = 8;
    }
    if w == 0 {
        out.push(mask + (n64 as u8));
    } else {
        let arg: u8 = if w == 1 {
            28
        } else if w == 2 {
            29
        } else if w == 4 {
            30
        } else {
            31
        };
        out.push(mask + arg);
        push_be(out, n64, w);
    }
    assert(out@ =~= old(out)@ + count_bytes(mask, n as nat, count_choice(n as nat, width)));
}

/// Whether a count in the width wished for is in the least width.
pub fn canonic_width(n: usize, width: u8) -> (r: bool)
    ensures
        r == (count_choice(n as nat, width) == count_width(n as nat)),
{
    let n64 = n as u64;
    if n64 <= 27 {
        width <= 0
    } else if n64 <= 0xFF {
        width <= 1
    } else if n64 <= 0xFFFF {
        width <= 3
    } else if n64 <= 0xFFFF_FFFF {
        width <= 7
    } else {
        true
    }
}

impl ByteString {
    /// A byte string is never canonic.
    pub fn canonic(&self) -> (r: bool)
        ensures
            !r,
    {
        false
    }

    pub fn to_value(&self) -> (v: Value)
        ensures
            v@ == Tree::Array(byte_items(self.elements@)),
            v.wf(),
    {
        let mut arr: Vec<Value> = Vec::with_capacity(self.elements.len());
        let mut i: usize = 0;
        while i < self.elements.len()
            invariant
                0 <= i <= self.elements.len(),
                arr@.len() == i,
                forall|j: int| 0 <= j < i ==> (#[trigger] arr@[j])@ == Tree::Int(
                    self.elements@[j] as i64,
                ),
            decreases self.elements.len() - i,
        {
            arr.push(Value::Int(self.elements[i] as i64));
            i = i + 1;
        }
        let v = Value::Array(arr);
        proof {
            assert(trees(arr@) =~= byte_items(self.elements@));
            assert(v@ == Tree::Array(trees(arr@)));
            assert(v@.wf() == (forall|j: int|
                0 <= j < trees(arr@).len() ==> (#[trigger] trees(arr@)[j]).wf()));
        }
        v
    }

    pub fn encode(&self, out: &mut Vec<u8>)
        ensures
            final(out)@ == old(out)@ + count_bytes(
                0x80,
                self.elements@.len(),
                count_choice(self.elements@.len(), self.count_width),
            ) + self.elements@,
    {
        encode_count(self.elements.len(), self.count_width, 0x80, out);
        push_all(out, self.elements.as_slice());
    }
}

impl TestValue {
    /// Whether the chosen encoding is the canonic one: ints and counts in the least width,
    /// a NaN with all bits set, no byte string and no set, and the keys of every map in
    /// strictly ascending order.
    pub open spec fn is_canonic(&self) -> bool
        decreases self,
    {
        match self {
            TestValue::Nil => true,
            TestValue::Bool(_) => true,
            TestValue::Int(v) => chosen_width(int_width(v.n as int), v.bytes as nat) == int_width(
                v.n as int,
            ),
            TestValue::Float(bits) => !is_nan(*bits) || *bits == NAN_BITS,
            TestValue::ByteString(_) => false,
            TestValue::Array(a) => count_choice(a.elements@.len(), a.count_width) == count_width(
                a.elements@.len(),
            ) && forall|i: int|
                0 <= i < a.elements@.len() ==> (#[trigger] a.elements@[i]).is_canonic(),
            TestValue::SetOf(_) => false,
            TestValue::MapOf(a) => count_choice(a.elements@.len(), a.count_width) == count_width(
                a.elements@.len(),
            ) && (forall|i: int|
                0 <= i < a.elements@.len() ==> (#[trigger] a.elements@[i]).0.is_canonic()
                    && a.elements@[i].1.is_canonic()) && forall|i: int, j: int|
                0 <= i < j < a.elements@.len() ==> #[trigger] listed_below(a.elements@, i, j),
        }
    }

    /// Whether the chosen encoding is the canonic one (see [`TestValue::is_canonic`]).
    pub fn canonic(&self) -> (r: bool)
        ensures
            r == self.is_canonic(),
        decreases self,
    {
        match self {
            TestValue::Nil => true,
            TestValue::Bool(_) => true,
            TestValue::Int(v) => v.canonic(),
            TestValue::Float(bits) => !float_is_nan(*bits) || *bits == NAN_BITS,
            TestValue::ByteString(v) => v.canonic(),
            TestValue::Array(v) => v.canonic(),
            TestValue::SetOf(v) => v.canonic(),
            TestValue::MapOf(v) => v.canonic(),
        }
    }

    /// The value that is encoded.
    pub fn to_value(&self) -> (v: Value)
        ensures
            v@ == self.value(),
            v.wf(),
        decreases self,
    {
        match self {
            TestValue::Nil => Value::Nil,
            TestValue::Bool(b) => Value::Bool(*b),
            TestValue::Int(v) => v.to_value(),
            TestValue::Float(bits) => {
                proof {
                    crate::value::lemma_view_normal(Value::Float(*bits));
                }
                Value::Float(*bits)
            },
            TestValue::ByteString(v) => v.to_value(),
            TestValue::Array(v) => v.to_value(),
            TestValue::SetOf(v) => v.to_value(),
            TestValue::MapOf(v) => v.to_value(),
        }
    }

    /// Writes the chosen encoding.
    pub fn encode(&self, out: &mut Vec<u8>)
        ensures
            final(out)@ == old(out)@ + self.bytes(),
        decreases self,
    {
        match self {
            TestValue::Nil => {
                out.push(0x00);
                assert(out@ =~= old(out)@ + self.bytes());
            },
            TestValue::Bool(b) => {
                out.push(
                    if *b {
                        0x21
                    } else {
                        0x20
                    },
                );
                assert(out@ =~= old(out)@ + self.bytes());
            },
            TestValue::Float(bits) => {
                out.push(0x40);
                push_be(out, *bits, 8);
                assert(out@ =~= old(out)@ + self.bytes());
            },
            TestValue::Int(v) => v.encode(out),
            TestValue::ByteString(v) => v.encode(out),
            TestValue::Array(v) => v.encode(out),
            TestValue::SetOf(v) => v.encode(out),
            TestValue::MapOf(v) => v.encode(out),
        }
    }
}

/// The key of entry `i` is below the key of entry `j`, as values.
pub open spec fn listed_below(es: Seq<(TestValue, TestValue)>, i: int, j: int) -> bool {
    order(es[i].0.value(), es[j].0.value()) == Order::Less
}

/// Writes the chosen encodings of the items, one after the other.
#[verifier::loop_isolation(false)]
fn encode_items(xs: &Vec<TestValue>, out: &mut Vec<u8>)
    ensures
        final(out)@ == old(out)@ + items_bytes(xs@, 0),
    decreases xs,
{
    let mut i: usize = 0;
    while i < xs.len()
        invariant
            0 <= i <= xs.len(),
            old(out)@ + items_bytes(xs@, 0) == out@ + items_bytes(xs@, i as int),
        decreases xs.len() - i,
    {
        let ghost before = out@;
        xs[i].encode(out);
        assert(before + items_bytes(xs@, i as int) =~= out@ + items_bytes(xs@, i + 1));
        i = i + 1;
    }
    assert(out@ + items_bytes(xs@, i as int) =~= out@);
}

impl Array {
    /// Whether the chosen encoding is the canonic one: the count in the least width, and
    /// every item in its canonic encoding.
    #[verifier::loop_isolation(false)]
    pub fn canonic(&self) -> (r: bool)
        ensures
            r == (count_choice(self.elements@.len(), self.count_width) == count_width(
                self.elements@.len(),
            ) && forall|i: int|
                0 <= i < self.elements@.len() ==> (#[trigger] self.elements@[i]).is_canonic()),
        decreases self,
    {
        if !canonic_width(self.elements.len(), self.count_width) {
            return false;
        }
        let mut i: usize = 0;
        while i < self.elements.len()
            invariant
                0 <= i <= self.elements.len(),
                forall|j: int| 0 <= j < i ==> (#[trigger] self.elements@[j]).is_canonic(),
            decreases self.elements.len() - i,
        {
            if !self.elements[i].canonic() {
                return false;
            }
            i = i + 1;
        }
        true
    }

    /// The array of the items' values.
    #[verifier::loop_isolation(false)]
    pub fn to_value(&self) -> (v: Value)
        ensures
            v@ == Tree::Array(items_values(self.elements@)),
            v.wf(),
        decreases self,
    {
        let mut arr: Vec<Value> = Vec::with_capacity(self.elements.len());
        let mut i: usize = 0;
        while i < self.elements.len()
            invariant
                0 <= i <= self.elements.len(),
                arr@.len() == i,
                forall|j: int|
                    0 <= j < i ==> (#[trigger] arr@[j])@ == self.elements@[j].value()
                        && arr@[j].wf(),
            decreases self.elements.len() - i,
        {
            arr.push(self.elements[i].to_value());
            i = i + 1;
        }
        let v = Value::Array(arr);
        proof {
            assert(trees(arr@) =~= items_values(self.elements@));
            assert(v@ == Tree::Array(trees(arr@)));
            assert(v@.wf() == (forall|j: int|
                0 <= j < trees(arr@).len() ==> (#[trigger] trees(arr@)[j]).wf()));
            assert forall|j: int| 0 <= j < trees(arr@).len() implies (#[trigger] trees(
                arr@,
            )[j]).wf() by {
                assert(arr@[j].wf());
            }
        }
        v
    }

    /// Writes the count, then the items.
    pub fn encode(&self, out: &mut Vec<u8>)
        ensures
            final(out)@ == old(out)@ + count_bytes(
                0xA0,
                self.elements@.len(),
                count_choice(self.elements@.len(), self.count_width),
            ) + items_bytes(self.elements@, 0),
        decreases self,
    {
        encode_count(self.elements.len(), self.count_width, 0xA0, out);
        encode_items(&self.elements, out);
    }
}

impl SetOf {
    /// A set is never canonic.
    pub fn canonic(&self) -> (r: bool)
        ensures
            !r,
    {
        false
    }

    /// The map that binds every element to nil.
    #[verifier::loop_isolation(false)]
    pub fn to_value(&self) -> (v: Value)
        ensures
            v@ == Tree::Mapping(keys_value(self.elements@, self.elements@.len())),
            v.wf(),
        decreases self,
    {
        let mut m: Vec<(Value, Value)> = Vec::new();
        let mut i: usize = 0;
        assert(tree_entries(m@) =~= keys_value(self.elements@, 0));
        assert(entries_wf(tree_entries(m@)));
        while i < self.elements.len()
            invariant
                0 <= i <= self.elements.len(),
                tree_entries(m@) == keys_value(self.elements@, i as nat),
                entries_wf(tree_entries(m@)),
            decreases self.elements.len() - i,
        {
            let k = self.elements[i].to_value();
            proof {
                lemma_insert_wf(tree_entries(m@), k@, Tree::Nil);
            }
            insert_entry(&mut m, k, Value::Nil);
            i = i + 1;
        }
        let v = Value::Mapping(m);
        proof {
            assert(v@ == Tree::Mapping(tree_entries(m@)));
            assert(v@.wf() == entries_wf(tree_entries(m@)));
        }
        v
    }

    /// Writes the count, then the elements as they stand.
    pub fn encode(&self, out: &mut Vec<u8>)
        ensures
            final(out)@ == old(out)@ + count_bytes(
                0xC0,
                self.elements@.len(),
                count_choice(self.elements@.len(), self.count_width),
            ) + items_bytes(self.elements@, 0),
        decreases self,
    {
        encode_count(self.elements.len(), self.count_width, 0xC0, out);
        encode_items(&self.elements, out);
    }
}

impl MapOf {
    /// Whether the chosen encoding is the canonic one: the count in the least width, every
    /// key and value in its canonic encoding, and the keys in strictly ascending order.
    #[verifier::loop_isolation(false)]
    pub fn canonic(&self) -> (r: bool)
        ensures
            r == (count_choice(self.elements@.len(), self.count_width) == count_width(
                self.elements@.len(),
            ) && (forall|i: int|
                0 <= i < self.elements@.len() ==> (#[trigger] self.elements@[i]).0.is_canonic()
                    && self.elements@[i].1.is_canonic()) && forall|i: int, j: int|
                0 <= i < j < self.elements@.len() ==> #[trigger] listed_below(
                    self.elements@,
                    i,
                    j,
                )),
        decreases self,
    {
        if !canonic_width(self.elements.len(), self.count_width) {
            return false;
        }
        let mut i: usize = 0;
        while i < self.elements.len()
            invariant
                0 <= i <= self.elements.len(),
                forall|j: int|
                    0 <= j < i ==> (#[trigger] self.elements@[j]).0.is_canonic()
                        && self.elements@[j].1.is_canonic(),
                forall|j: int, k: int|
                    0 <= j < k < i ==> #[trigger] listed_below(self.elements@, j, k),
            decreases self.elements.len() - i,
        {
            if !self.elements[i].0.canonic() || !self.elements[i].1.canonic() {
                return false;
            }
            if i > 0 {
                let before = self.elements[i - 1].0.to_value();
                let key = self.elements[i].0.to_value();
                match before.total_order(&key) {
                    Order::Less => {
                        proof {
                            assert forall|j: int| 0 <= j < i implies #[trigger] listed_below(
                                self.elements@,
                                j,
                                i as int,
                            ) by {
                                if j < i - 1 {
                                    assert(listed_below(self.elements@, j, i - 1));
                                    crate::order_laws::lemma_order_composes(
                                        self.elements@[j].0.value(),
                                        self.elements@[i - 1].0.value(),
                                        self.elements@[i as int].0.value(),
                                    );
                                }
                            }
                        }
                    },
                    _ => {
                        assert(!listed_below(self.elements@, i - 1, i as int));
                        return false;
                    },
                }
            }
            i = i + 1;
        }
        true
    }

    /// The map that binds every key to its value; of two entries with the same key the
    /// later one counts.
    #[verifier::loop_isolation(false)]
    pub fn to_value(&self) -> (v: Value)
        ensures
            v@ == Tree::Mapping(entries_value(self.elements@, self.elements@.len())),
            v.wf(),
        decreases self,
    {
        let mut m: Vec<(Value, Value)> = Vec::new();
        let mut i: usize = 0;
        assert(tree_entries(m@) =~= entries_value(self.elements@, 0));
        assert(entries_wf(tree_entries(m@)));
        while i < self.elements.len()
            invariant
                0 <= i <= self.elements.len(),
                tree_entries(m@) == entries_value(self.elements@, i as nat),
                entries_wf(tree_entries(m@)),
            decreases self.elements.len() - i,
        {
            let k = self.elements[i].0.to_value();
            let x = self.elements[i].1.to_value();
            proof {
                lemma_insert_wf(tree_entries(m@), k@, x@);
            }
            insert_entry(&mut m, k, x);
            i = i + 1;
        }
        let v = Value::Mapping(m);
        proof {
            assert(v@ == Tree::Mapping(tree_entries(m@)));
            assert(v@.wf() == entries_wf(tree_entries(m@)));
        }
        v
    }

    /// Writes the count, then each key and its value, as the entries stand.
    #[verifier::loop_isolation(false)]
    pub fn encode(&self, out: &mut Vec<u8>)
        ensures
            final(out)@ == old(out)@ + count_bytes(
                0xE0,
                self.elements@.len(),
                count_choice(self.elements@.len(), self.count_width),
            ) + entries_bytes(self.elements@, 0),
        decreases self,
    {
        encode_count(self.elements.len(), self.count_width, 0xE0, out);
        let ghost headed = out@;
        let mut i: usize = 0;
        while i < self.elements.len()
            invariant
                0 <= i <= self.elements.len(),
                headed + entries_bytes(self.elements@, 0) == out@ + entries_bytes(
                    self.elements@,
                    i as int,
                ),
            decreases self.elements.len() - i,
        {
            let ghost before = out@;
            self.elements[i].0.encode(out);
            self.elements[i].1.encode(out);
            assert(before + entries_bytes(self.elements@, i as int) =~= out@ + entries_bytes(
                self.elements@,
                i + 1,
            ));
            i = i + 1;
        }
        assert(out@ + entries_bytes(self.elements@, i as int) =~= out@);
    }
}

} // verus!

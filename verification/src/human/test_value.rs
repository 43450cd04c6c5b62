//! Values together with one chosen text each, for testing the decoder of the human-readable
//! encoding: the texts cover the freedoms that the encoding leaves (whitespace and comments
//! around every value, the many ways to write a number or a string, trailing commas, sets,
//! the order of entries).
use crate::compact::de::byte_items;
use crate::entries::{insert, insert_entry, lemma_insert_wf};
use crate::order::entries_wf;
use crate::test_value::Spaces;
use crate::text::push_all;
use crate::value::{normal_bits, tree_entries, trees, Tree, Value};
use vstd::prelude::*;
use vstd::string::StringSliceAdditionalSpecFns;

verus! {

/// An int and the text chosen for it.
#[derive(Debug)]
pub struct Int {
    pub n: i64,
    pub text: Vec<u8>,
}

/// A float, held by its bits, and the text chosen for it.
#[derive(Debug)]
pub struct Float {
    pub bits: u64,
    pub text: Vec<u8>,
}

/// An array of bytes and the text chosen for it: a byte string in one of its forms.
#[derive(Debug)]
pub struct ByteString {
    pub bytes: Vec<u8>,
    pub text: Vec<u8>,
}

/// The array of the bytes of a string and the text chosen for it: a string literal in one
/// of its forms.
#[derive(Debug)]
pub struct Utf8String {
    pub string: String,
    pub text: Vec<u8>,
}

/// An array: each item with the whitespace before and after it, and the whitespace after
/// a trailing comma, where one is written. An empty array has no trailing comma.
#[derive(Debug)]
pub struct Array {
    pub values: Vec<(Spaces, TestValue, Spaces)>,
    pub trailing_comma: Option<Spaces>,
}

/// A map of the items to nil, written as a set of the items as they stand.
#[derive(Debug)]
pub struct SetOf {
    pub values: Vec<(Spaces, TestValue, Spaces)>,
    pub trailing_comma: Option<Spaces>,
}

/// A map, written with its entries as they stand: each key and each value with the
/// whitespace before and after it. Of two entries with the same key the later one counts.
#[derive(Debug)]
pub struct MapOf {
    pub values: Vec<(Spaces, TestValue, Spaces, Spaces, TestValue, Spaces)>,
    pub trailing_comma: Option<Spaces>,
}

/// A value together with the choices that fix one text for it; the whitespace stands
/// before the value.
#[derive(Debug)]
pub enum TestValue {
    Nil(Spaces),
    Bool(Spaces, bool),
    Int(Spaces, Int),
    Float(Spaces, Float),
    ByteString(Spaces, ByteString),
    Utf8String(Spaces, Utf8String),
    Array(Spaces, Array),
    SetOf(Spaces, SetOf),
    MapOf(Spaces, MapOf),
}

/// What follows item `i` of `len`: a comma, but after the last item only the trailing
/// comma and its whitespace, where one is written.
pub open spec fn separator(len: nat, trailing: Option<Spaces>, i: int) -> Seq<u8> {
    if i + 1 == len {
        match trailing {
            None => Seq::empty(),
            Some(s) => seq![0x2Cu8] + s.bytes(),
        }
    } else {
        seq![0x2Cu8]
    }
}

/// The text of the items from index `i` on, each with what follows it.
pub open spec fn items_text(
    xs: Seq<(Spaces, TestValue, Spaces)>,
    trailing: Option<Spaces>,
    i: int,
) -> Seq<u8>
    decreases xs, 1nat, xs.len() - i,
{
    if 0 <= i < xs.len() {
        xs[i].0.bytes() + xs[i].1.bytes() + xs[i].2.bytes() + separator(xs.len(), trailing, i)
            + items_text(xs, trailing, i + 1)
    } else {
        Seq::empty()
    }
}

/// The text of an entry: the key, a colon and the value, each with its whitespace.
pub open spec fn entry_text(e: (Spaces, TestValue, Spaces, Spaces, TestValue, Spaces)) -> Seq<u8>
    decreases e, 0nat, 1int,
{
    e.0.bytes() + e.1.bytes() + e.2.bytes() + seq![0x3Au8] + e.3.bytes() + e.4.bytes()
        + e.5.bytes()
}

/// The text of the entries from index `i` on, each with what follows it.
pub open spec fn entries_text(
    es: Seq<(Spaces, TestValue, Spaces, Spaces, TestValue, Spaces)>,
    trailing: Option<Spaces>,
    i: int,
) -> Seq<u8>
    decreases es, 1nat, es.len() - i,
{
    if 0 <= i < es.len() {
        entry_text(es[i]) + separator(es.len(), trailing, i) + entries_text(es, trailing, i + 1)
    } else {
        Seq::empty()
    }
}

/// The values of the items.
pub open spec fn items_values(xs: Seq<(Spaces, TestValue, Spaces)>) -> Seq<Tree>
    decreases xs, 1nat,
{
    Seq::new(
        xs.len(),
        |i: int|
            if 0 <= i < xs.len() {
                xs[i].1.value()
            } else {
                Tree::Nil
            },
    )
}

/// The entries of the map that binds the first `n` items to nil, one after the other.
pub open spec fn keys_value(xs: Seq<(Spaces, TestValue, Spaces)>, n: nat) -> Seq<(Tree, Tree)>
    decreases xs, 1nat, n,
{
    if n == 0 || n > xs.len() {
        Seq::empty()
    } else {
        insert(keys_value(xs, (n - 1) as nat), xs[n - 1].1.value(), Tree::Nil)
    }
}

/// The entries of the map that binds the first `n` keys to their values, one after the
/// other.
pub open spec fn entries_value(
    es: Seq<(Spaces, TestValue, Spaces, Spaces, TestValue, Spaces)>,
    n: nat,
) -> Seq<(Tree, Tree)>
    decreases es, 1nat, n,
{
    if n == 0 || n > es.len() {
        Seq::empty()
    } else {
        insert(entries_value(es, (n - 1) as nat), es[n - 1].1.value(), es[n - 1].4.value())
    }
}

impl TestValue {
    /// The chosen text.
    pub open spec fn bytes(&self) -> Seq<u8>
        decreases self, 0nat, 0int,
    {
        match self {
            TestValue::Nil(s) => s.bytes() + seq![0x6Eu8, 0x69, 0x6C],
            TestValue::Bool(s, b) => s.bytes() + if *b {
                seq![0x74u8, 0x72, 0x75, 0x65]
            } else {
                seq![0x66u8, 0x61, 0x6C, 0x73, 0x65]
            },
            TestValue::Int(s, v) => s.bytes() + v.text@,
            TestValue::Float(s, v) => s.bytes() + v.text@,
            TestValue::ByteString(s, v) => s.bytes() + v.text@,
            TestValue::Utf8String(s, v) => s.bytes() + v.text@,
            TestValue::Array(s, a) => s.bytes() + seq![0x5Bu8] + items_text(
                a.values@,
                a.trailing_comma,
                0,
            ) + seq![0x5Du8],
            TestValue::SetOf(s, a) => s.bytes() + seq![0x40u8, 0x7B] + items_text(
                a.values@,
                a.trailing_comma,
                0,
            ) + seq![0x7Du8],
            TestValue::MapOf(s, a) => s.bytes() + seq![0x7Bu8] + entries_text(
                a.values@,
                a.trailing_comma,
                0,
            ) + seq![0x7Du8],
        }
    }

    /// The value that the text stands for.
    pub open spec fn value(&self) -> Tree
        decreases self, 0nat, 0nat,
    {
        match self {
            TestValue::Nil(_) => Tree::Nil,
            TestValue::Bool(_, b) => Tree::Bool(*b),
            TestValue::Int(_, v) => Tree::Int(v.n),
            TestValue::Float(_, v) => Tree::Float(normal_bits(v.bits)),
            TestValue::ByteString(_, v) => Tree::Array(byte_items(v.bytes@)),
            TestValue::Utf8String(_, v) => Tree::Array(
                byte_items(vstd::utf8::encode_utf8(v.string@)),
            ),
            TestValue::Array(_, a) => Tree::Array(items_values(a.values@)),
            TestValue::SetOf(_, a) => Tree::Mapping(keys_value(a.values@, a.values@.len())),
            TestValue::MapOf(_, a) => Tree::Mapping(entries_value(a.values@, a.values@.len())),
        }
    }

    /// The value that the text stands for.
    pub fn to_value(&self) -> (v: Value)
        ensures
            v@ == self.value(),
            v.wf(),
        decreases self,
    {
        match self {
            TestValue::Nil(_) => Value::Nil,
            TestValue::Bool(_, b) => Value::Bool(*b),
            TestValue::Int(_, v) => Value::Int(v.to_value()),
            TestValue::Float(_, v) => {
                proof {
                    crate::value::lemma_view_normal(Value::Float(v.bits));
                }
                Value::Float(v.to_value())
            },
            TestValue::ByteString(_, v) => bytes_value(v.to_value().as_slice()),
            TestValue::Utf8String(_, v) => bytes_value(v.to_value().as_bytes()),
            TestValue::Array(_, v) => v.to_value(),
            TestValue::SetOf(_, v) => v.to_value(),
            TestValue::MapOf(_, v) => v.to_value(),
        }
    }

    /// Writes the chosen text: the whitespace, then the value.
    pub fn encode(&self, out: &mut Vec<u8>)
        ensures
            final(out)@ == old(out)@ + self.bytes(),
        decreases self,
    {
        match self {
            TestValue::Nil(s) => {
                s.encode(out);
                out.push(0x6E);
                out.push(0x69);
                out.push(0x6C);
            },
            TestValue::Bool(s, b) => {
                s.encode(out);
                if *b {
                    out.push(0x74);
                    out.push(0x72);
                    out.push(0x75);
                    out.push(0x65);
                } else {
                    out.push(0x66);
                    out.push(0x61);
                    out.push(0x6C);
                    out.push(0x73);
                    out.push(0x65);
                }
            },
            TestValue::Int(s, v) => {
                s.encode(out);
                v.encode(out);
            },
            TestValue::Float(s, v) => {
                s.encode(out);
                v.encode(out);
            },
            TestValue::ByteString(s, v) => {
                s.encode(out);
                v.encode(out);
            },
            TestValue::Utf8String(s, v) => {
                s.encode(out);
                v.encode(out);
            },
            TestValue::Array(s, v) => {
                s.encode(out);
                v.encode(out);
            },
            TestValue::SetOf(s, v) => {
                s.encode(out);
                v.encode(out);
            },
            TestValue::MapOf(s, v) => {
                s.encode(out);
                v.encode(out);
            },
        }
        assert(out@ =~= old(out)@ + self.bytes());
    }
}

/// The array of the bytes, each as an int.
pub fn bytes_value(bytes: &[u8]) -> (v: Value)
    ensures
        v@ == Tree::Array(byte_items(bytes@)),
        v.wf(),
{
    let mut arr: Vec<Value> = Vec::with_capacity(bytes.len());
    let mut i: usize = 0;
    while i < bytes.len()
        invariant
            0 <= i <= bytes.len(),
            arr@.len() == i,
            forall|j: int| 0 <= j < i ==> (#[trigger] arr@[j])@ == Tree::Int(bytes@[j] as i64),
        decreases bytes.len() - i,
    {
        arr.push(Value::Int(bytes[i] as i64));
        i = i + 1;
    }
    let v = Value::Array(arr);
    proof {
        assert(trees(arr@) =~= byte_items(bytes@));
        assert(v@ == Tree::Array(trees(arr@)));
        assert(v@.wf() == (forall|j: int|
            0 <= j < trees(arr@).len() ==> (#[trigger] trees(arr@)[j]).wf()));
    }
    v
}

impl Int {
    pub fn to_value(&self) -> (n: i64)
        ensures
            n == self.n,
    {
        self.n
    }

    pub fn encode(&self, out: &mut Vec<u8>)
        ensures
            final(out)@ == old(out)@ + self.text@,
    {
        push_all(out, self.text.as_slice());
    }
}

impl Float {
    /// The bits of the float.
    pub fn to_value(&self) -> (bits: u64)
        ensures
            bits == self.bits,
    {
        self.bits
    }

    pub fn encode(&self, out: &mut Vec<u8>)
        ensures
            final(out)@ == old(out)@ + self.text@,
    {
        push_all(out, self.text.as_slice());
    }
}

impl ByteString {
    pub fn to_value(&self) -> (bytes: &Vec<u8>)
        ensures
            bytes@ == self.bytes@,
    {
        &self.bytes
    }

    pub fn encode(&self, out: &mut Vec<u8>)
        ensures
            final(out)@ == old(out)@ + self.text@,
    {
        push_all(out, self.text.as_slice());
    }
}

impl Utf8String {
    pub fn to_value(&self) -> (string: &str)
        ensures
            string@ == self.string@,
    {
        self.string.as_str()
    }

    pub fn encode(&self, out: &mut Vec<u8>)
        ensures
            final(out)@ == old(out)@ + self.text@,
    {
        push_all(out, self.text.as_slice());
    }
}

/// Writes what follows item `i` of `len` (see `separator`).
fn encode_separator(len: usize, trailing: &Option<Spaces>, i: usize, out: &mut Vec<u8>)
    requires
        i < len,
    ensures
        final(out)@ == old(out)@ + separator(len as nat, *trailing, i as int),
{
    if i + 1 == len {
        match trailing {
            None => {},
            Some(s) => {
                out.push(0x2C);
                s.encode(out);
            },
        }
    } else {
        out.push(0x2C);
    }
    assert(out@ =~= old(out)@ + separator(len as nat, *trailing, i as int));
}

/// Writes an entry: the key, a colon and the value, each with its whitespace.
fn encode_entry(e: &(Spaces, TestValue, Spaces, Spaces, TestValue, Spaces), out: &mut Vec<u8>)
    ensures
        final(out)@ == old(out)@ + entry_text(*e),
    decreases e,
{
    e.0.encode(out);
    e.1.encode(out);
    e.2.encode(out);
    let ghost key = out@;
    assert(key =~= old(out)@ + (e.0.bytes() + e.1.bytes() + e.2.bytes()));
    out.push(0x3A);
    e.3.encode(out);
    e.4.encode(out);
    e.5.encode(out);
    assert(out@ =~= key + (seq![0x3Au8] + e.3.bytes() + e.4.bytes() + e.5.bytes()));
    assert(out@ =~= old(out)@ + entry_text(*e));
}

/// Writes the items, each with its whitespace and with what follows it.
#[verifier::loop_isolation(false)]
fn encode_items(
    xs: &Vec<(Spaces, TestValue, Spaces)>,
    trailing: &Option<Spaces>,
    out: &mut Vec<u8>,
)
    ensures
        final(out)@ == old(out)@ + items_text(xs@, *trailing, 0),
    decreases xs,
{
    let mut i: usize = 0;
    while i < xs.len()
        invariant
            0 <= i <= xs.len(),
            old(out)@ + items_text(xs@, *trailing, 0) == out@ + items_text(
                xs@,
                *trailing,
                i as int,
            ),
        decreases xs.len() - i,
    {
        let ghost before = out@;
        xs[i].0.encode(out);
        xs[i].1.encode(out);
        xs[i].2.encode(out);
        encode_separator(xs.len(), trailing, i, out);
        assert(before + items_text(xs@, *trailing, i as int) =~= out@ + items_text(
            xs@,
            *trailing,
            i + 1,
        ));
        i = i + 1;
    }
    assert(out@ + items_text(xs@, *trailing, i as int) =~= out@);
}

impl Array {
    /// The array of the items' values.
    #[verifier::loop_isolation(false)]
    pub fn to_value(&self) -> (v: Value)
        ensures
            v@ == Tree::Array(items_values(self.values@)),
            v.wf(),
        decreases self,
    {
        let mut arr: Vec<Value> = Vec::with_capacity(self.values.len());
        let mut i: usize = 0;
        while i < self.values.len()
            invariant
                0 <= i <= self.values.len(),
                arr@.len() == i,
                forall|j: int|
                    0 <= j < i ==> (#[trigger] arr@[j])@ == self.values@[j].1.value()
                        && arr@[j].wf(),
            decreases self.values.len() - i,
        {
            arr.push(self.values[i].1.to_value());
            i = i + 1;
        }
        let v = Value::Array(arr);
        proof {
            assert(trees(arr@) =~= items_values(self.values@));
            assert(v@ == Tree::Array(trees(arr@)));
            assert(v@.wf() == (forall|j: int|
                0 <= j < trees(arr@).len() ==> (#[trigger] trees(arr@)[j]).wf()));
            assert forall|j: int| 0 <= j < trees(arr@).len() implies (#[trigger] trees(
                arr@,
            )[j]).wf() by {
                assert(arr@[j].wf());
            }
        }
        v
    }

    /// Writes the items between square brackets.
    pub fn encode(&self, out: &mut Vec<u8>)
        ensures
            final(out)@ == old(out)@ + seq![0x5Bu8] + items_text(
                self.values@,
                self.trailing_comma,
                0,
            ) + seq![0x5Du8],
        decreases self,
    {
        out.push(0x5B);
        encode_items(&self.values, &self.trailing_comma, out);
        out.push(0x5D);
        assert(out@ =~= old(out)@ + seq![0x5Bu8] + items_text(
            self.values@,
            self.trailing_comma,
            0,
        ) + seq![0x5Du8]);
    }
}

impl SetOf {
    /// The map that binds every item to nil.
    #[verifier::loop_isolation(false)]
    pub fn to_value(&self) -> (v: Value)
        ensures
            v@ == Tree::Mapping(keys_value(self.values@, self.values@.len())),
            v.wf(),
        decreases self,
    {
        let mut m: Vec<(Value, Value)> = Vec::new();
        let mut i: usize = 0;
        assert(tree_entries(m@) =~= keys_value(self.values@, 0));
        assert(entries_wf(tree_entries(m@)));
        while i < self.values.len()
            invariant
                0 <= i <= self.values.len(),
                tree_entries(m@) == keys_value(self.values@, i as nat),
                entries_wf(tree_entries(m@)),
            decreases self.values.len() - i,
        {
            let k = self.values[i].1.to_value();
            proof {
                lemma_insert_wf(tree_entries(m@), k@, Tree::Nil);
            }
            insert_entry(&mut m, k, Value::Nil);
            i = i + 1;
        }
        let v = Value::Mapping(m);
        proof {
            assert(v@ == Tree::Mapping(tree_entries(m@)));
            assert(v@.wf() == entries_wf(tree_entries(m@)));
        }
        v
    }

    /// Writes the items between `@{` and `}`.
    pub fn encode(&self, out: &mut Vec<u8>)
        ensures
            final(out)@ == old(out)@ + seq![0x40u8, 0x7B] + items_text(
                self.values@,
                self.trailing_comma,
                0,
            ) + seq![0x7Du8],
        decreases self,
    {
        out.push(0x40);
        out.push(0x7B);
        encode_items(&self.values, &self.trailing_comma, out);
        out.push(0x7D);
        assert(out@ =~= old(out)@ + seq![0x40u8, 0x7B] + items_text(
            self.values@,
            self.trailing_comma,
            0,
        ) + seq![0x7Du8]);
    }
}

impl MapOf {
    /// The map that binds every key to its value; of two entries with the same key the
    /// later one counts.
    #[verifier::loop_isolation(false)]
    pub fn to_value(&self) -> (v: Value)
        ensures
            v@ == Tree::Mapping(entries_value(self.values@, self.values@.len())),
            v.wf(),
        decreases self,
    {
        let mut m: Vec<(Value, Value)> = Vec::new();
        let mut i: usize = 0;
        assert(tree_entries(m@) =~= entries_value(self.values@, 0));
        assert(entries_wf(tree_entries(m@)));
        while i < self.values.len()
            invariant
                0 <= i <= self.values.len(),
                tree_entries(m@) == entries_value(self.values@, i as nat),
                entries_wf(tree_entries(m@)),
            decreases self.values.len() - i,
        {
            let k = self.values[i].1.to_value();
            let x = self.values[i].4.to_value();
            proof {
                lemma_insert_wf(tree_entries(m@), k@, x@);
            }
            insert_entry(&mut m, k, x);
            i = i + 1;
        }
        let v = Value::Mapping(m);
        proof {
            assert(v@ == Tree::Mapping(tree_entries(m@)));
            assert(v@.wf() == entries_wf(tree_entries(m@)));
        }
        v
    }

    /// Writes the entries between curly brackets, a colon between each key and its value.
    #[verifier::loop_isolation(false)]
    pub fn encode(&self, out: &mut Vec<u8>)
        ensures
            final(out)@ == old(out)@ + seq![0x7Bu8] + entries_text(
                self.values@,
                self.trailing_comma,
                0,
            ) + seq![0x7Du8],
        decreases self,
    {
        out.push(0x7B);
        let ghost opened = out@;
        let mut i: usize = 0;
        while i < self.values.len()
            invariant
                0 <= i <= self.values.len(),
                opened + entries_text(self.values@, self.trailing_comma, 0) == out@
                    + entries_text(self.values@, self.trailing_comma, i as int),
            decreases self.values.len() - i,
        {
            let ghost before = out@;
            encode_entry(&self.values[i], out);
            encode_separator(self.values.len(), &self.trailing_comma, i, out);
            assert(before + entries_text(self.values@, self.trailing_comma, i as int) =~= out@
                + entries_text(self.values@, self.trailing_comma, i + 1));
            i = i + 1;
        }
        assert(out@ + entries_text(self.values@, self.trailing_comma, i as int) =~= out@);
        out.push(0x7D);
        assert(out@ =~= old(out)@ + seq![0x7Bu8] + entries_text(
            self.values@,
            self.trailing_comma,
            0,
        ) + seq![0x7Du8]);
    }
}

} // verus!

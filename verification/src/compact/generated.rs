//! What holds of the values with a chosen encoding: the permissive decoder gives the value
//! back from every one of the encodings, and the canonic decoder from the canonic one.
use crate::compact::de::{
    decode, decode_bytes, decode_count, decode_entries, decode_float, decode_int, decode_items,
    DecodeError,
};
use crate::compact::laws::{
    lemma_decode_canonic, lemma_decode_head, lemma_insert_above, lemma_stands_concat, stands_at,
};
use crate::compact::ser::{canonic, canonic_entries, canonic_items, encodable};
use crate::compact::test_value::{
    count_choice, entries_bytes, entries_value, items_bytes, items_values, keys_value,
    listed_below, TestValue,
};
use crate::compact::wire::{
    be_bytes, count_bytes, count_width, int_width, lemma_be_bytes_len, lemma_be_value_of_bytes,
    lemma_pow256, unsigned_of, MAX_COUNT,
};
use crate::entries::insert;
use crate::order::{entries_wf, key_below, order, Order};
use crate::test_value::chosen_width;
use crate::value::{Tree, NAN_BITS};
use vstd::prelude::*;

verus! {

/// A chosen encoding has at least one byte.
pub proof fn lemma_generated_len(t: TestValue)
    ensures
        t.bytes().len() >= 1,
{
    match t {
        TestValue::Int(v) => {
            let w = chosen_width(int_width(v.n as int), v.bytes as nat);
            lemma_be_bytes_len(unsigned_of(v.n as int, w), w);
        },
        TestValue::ByteString(b) => {
            lemma_be_bytes_len(b.elements@.len(), count_choice(b.elements@.len(), b.count_width));
        },
        TestValue::Array(a) => {
            lemma_be_bytes_len(a.elements@.len(), count_choice(a.elements@.len(), a.count_width));
        },
        TestValue::SetOf(a) => {
            lemma_be_bytes_len(a.elements@.len(), count_choice(a.elements@.len(), a.count_width));
        },
        TestValue::MapOf(a) => {
            lemma_be_bytes_len(a.elements@.len(), count_choice(a.elements@.len(), a.count_width));
        },
        _ => {},
    }
}

/// A count of at most 2^63 - 1 in a chosen width decodes, in the permissive mode, to the
/// count.
proof fn lemma_generated_count(
    s: Seq<u8>,
    pos: int,
    tag: u8,
    major: int,
    n: nat,
    wish: u8,
    expected: DecodeError,
    out: DecodeError,
)
    requires
        tag == major * 32,
        4 <= major <= 7,
        n <= MAX_COUNT,
        stands_at(s, pos, count_bytes(tag, n, count_choice(n, wish))),
    ensures
        decode_count(s, pos, false, major, expected, out) == Ok::<(nat, int), (int, DecodeError)>(
            (n, pos + 1 + count_choice(n, wish)),
        ),
        count_bytes(tag, n, count_choice(n, wish)).len() == 1 + count_choice(n, wish),
{
    lemma_pow256();
    lemma_decode_head(s, pos, tag, n, count_choice(n, wish));
}

/// Permissive round trip: the permissive decoder gives back the value from each of its
/// chosen encodings, and ends where the encoding ends.
pub proof fn lemma_generated_decodes(s: Seq<u8>, pos: int, t: TestValue)
    requires
        t.valid(),
        stands_at(s, pos, t.bytes()),
    ensures
        decode(s, pos, false) == Ok::<(Tree, int), (int, DecodeError)>(
            (t.value(), pos + t.bytes().len()),
        ),
    decreases t, 0nat, 0int,
{
    lemma_generated_len(t);
    lemma_pow256();
    let c = t.bytes();
    assert(s.subrange(pos, pos + c.len())[0] == c[0]);
    match t {
        TestValue::Nil => {},
        TestValue::Bool(b) => {},
        TestValue::Int(v) => {
            let w = chosen_width(int_width(v.n as int), v.bytes as nat);
            let u = unsigned_of(v.n as int, w);
            lemma_decode_head(s, pos, 0x60, u, w);
            assert(decode_int(s, pos, false) == Ok::<(int, int), (int, DecodeError)>(
                (v.n as int, pos + c.len()),
            ));
        },
        TestValue::Float(bits) => {
            lemma_stands_concat(s, pos, seq![0x40u8], be_bytes(bits as nat, 8));
            lemma_be_bytes_len(bits as nat, 8);
            lemma_be_value_of_bytes(bits as nat, 8);
            assert(decode_float(s, pos, false) == Ok::<(u64, int), (int, DecodeError)>(
                (bits, pos + 9),
            ));
        },
        TestValue::ByteString(b) => {
            let n = b.elements@.len();
            let h = count_bytes(0x80, n, count_choice(n, b.count_width));
            lemma_stands_concat(s, pos, h, b.elements@);
            lemma_generated_count(
                s,
                pos,
                0x80,
                4,
                n,
                b.count_width,
                DecodeError::ExpectedBytes,
                DecodeError::OutOfBoundsString,
            );
            assert(decode_bytes(s, pos, false) == Ok::<(Seq<u8>, int), (int, DecodeError)>(
                (b.elements@, pos + c.len()),
            ));
        },
        TestValue::Array(a) => {
            let xs = a.elements@;
            let h = count_bytes(0xA0, xs.len(), count_choice(xs.len(), a.count_width));
            lemma_stands_concat(s, pos, h, items_bytes(xs, 0));
            lemma_generated_count(
                s,
                pos,
                0xA0,
                5,
                xs.len(),
                a.count_width,
                DecodeError::ExpectedArray,
                DecodeError::OutOfBoundsArray,
            );
            assert(items_values(xs).take(0) =~= Seq::empty());
            lemma_generated_items(s, pos + h.len(), xs, 0);
        },
        TestValue::SetOf(a) => {
            let xs = a.elements@;
            let h = count_bytes(0xC0, xs.len(), count_choice(xs.len(), a.count_width));
            lemma_stands_concat(s, pos, h, items_bytes(xs, 0));
            lemma_generated_count(
                s,
                pos,
                0xC0,
                6,
                xs.len(),
                a.count_width,
                DecodeError::ExpectedMap,
                DecodeError::OutOfBoundsSet,
            );
            lemma_generated_keys(s, pos + h.len(), xs, 0);
        },
        TestValue::MapOf(a) => {
            let es = a.elements@;
            let h = count_bytes(0xE0, es.len(), count_choice(es.len(), a.count_width));
            lemma_stands_concat(s, pos, h, entries_bytes(es, 0));
            lemma_generated_count(
                s,
                pos,
                0xE0,
                7,
                es.len(),
                a.count_width,
                DecodeError::ExpectedMap,
                DecodeError::OutOfBoundsMap,
            );
            lemma_generated_entries(s, pos + h.len(), es, 0);
        },
    }
}

proof fn lemma_generated_items(s: Seq<u8>, pos: int, xs: Seq<TestValue>, i: int)
    requires
        0 <= i <= xs.len(),
        forall|j: int| 0 <= j < xs.len() ==> (#[trigger] xs[j]).valid(),
        stands_at(s, pos, items_bytes(xs, i)),
    ensures
        decode_items(s, pos, (xs.len() - i) as nat, false, items_values(xs).take(i)) == Ok::<
            (Seq<Tree>, int),
            (int, DecodeError),
        >((items_values(xs), pos + items_bytes(xs, i).len())),
    decreases xs, 1nat, xs.len() - i,
{
    let vs = items_values(xs);
    if i < xs.len() {
        let c = xs[i].bytes();
        lemma_generated_len(xs[i]);
        lemma_stands_concat(s, pos, c, items_bytes(xs, i + 1));
        lemma_generated_decodes(s, pos, xs[i]);
        lemma_generated_items(s, pos + c.len(), xs, i + 1);
        assert(vs[i] == xs[i].value());
        assert(vs.take(i).push(xs[i].value()) =~= vs.take(i + 1));
    } else {
        assert(vs.take(i) =~= vs);
    }
}

proof fn lemma_generated_keys(s: Seq<u8>, pos: int, xs: Seq<TestValue>, i: int)
    requires
        0 <= i <= xs.len(),
        forall|j: int| 0 <= j < xs.len() ==> (#[trigger] xs[j]).valid(),
        stands_at(s, pos, items_bytes(xs, i)),
    ensures
        decode_entries(s, pos, (xs.len() - i) as nat, false, true, keys_value(xs, i as nat))
            == Ok::<(Seq<(Tree, Tree)>, int), (int, DecodeError)>(
            (keys_value(xs, xs.len()), pos + items_bytes(xs, i).len()),
        ),
    decreases xs, 1nat, xs.len() - i,
{
    if i < xs.len() {
        let c = xs[i].bytes();
        lemma_generated_len(xs[i]);
        lemma_stands_concat(s, pos, c, items_bytes(xs, i + 1));
        lemma_generated_decodes(s, pos, xs[i]);
        lemma_generated_keys(s, pos + c.len(), xs, i + 1);
        assert(keys_value(xs, (i + 1) as nat) == insert(
            keys_value(xs, i as nat),
            xs[i].value(),
            Tree::Nil,
        ));
    }
}

proof fn lemma_generated_entries(s: Seq<u8>, pos: int, es: Seq<(TestValue, TestValue)>, i: int)
    requires
        0 <= i <= es.len(),
        forall|j: int| 0 <= j < es.len() ==> (#[trigger] es[j]).0.valid() && es[j].1.valid(),
        stands_at(s, pos, entries_bytes(es, i)),
    ensures
        decode_entries(s, pos, (es.len() - i) as nat, false, false, entries_value(es, i as nat))
            == Ok::<(Seq<(Tree, Tree)>, int), (int, DecodeError)>(
            (entries_value(es, es.len()), pos + entries_bytes(es, i).len()),
        ),
    decreases es, 1nat, es.len() - i,
{
    if i < es.len() {
        let k = es[i].0.bytes();
        let v = es[i].1.bytes();
        lemma_generated_len(es[i].0);
        lemma_generated_len(es[i].1);
        lemma_stands_concat(s, pos, k + v, entries_bytes(es, i + 1));
        lemma_stands_concat(s, pos, k, v);
        lemma_generated_decodes(s, pos, es[i].0);
        lemma_generated_decodes(s, pos + k.len(), es[i].1);
        lemma_generated_entries(s, pos + k.len() + v.len(), es, i + 1);
        assert(entries_value(es, (i + 1) as nat) == insert(
            entries_value(es, i as nat),
            es[i].0.value(),
            es[i].1.value(),
        ));
    }
}

/// Permissive round trip: for every value with a chosen compact encoding, the permissive
/// decoder gives the value back from the encoding, whatever follows the encoding.
pub proof fn law_permissive_round_trip(t: TestValue, rest: Seq<u8>)
    requires
        t.valid(),
    ensures
        decode(t.bytes() + rest, 0, false) == Ok::<(Tree, int), (int, DecodeError)>(
            (t.value(), t.bytes().len() as int),
        ),
{
    let s = t.bytes() + rest;
    assert(s.subrange(0, t.bytes().len() as int) =~= t.bytes());
    lemma_generated_decodes(s, 0, t);
}

/// The entries of a map as they are listed.
pub open spec fn listing(es: Seq<(TestValue, TestValue)>) -> Seq<(Tree, Tree)> {
    Seq::new(es.len(), |i: int| (es[i].0.value(), es[i].1.value()))
}

/// What `lemma_canonic_generated` says of a value with a chosen encoding.
pub open spec fn is_the_canonic(t: TestValue) -> bool {
    &&& t.bytes() == canonic(t.value())
    &&& t.value().wf()
    &&& encodable(t.value())
}

/// The chosen encoding of a value that `is_canonic` holds of is the canonic encoding of the
/// value, and the value is valid.
pub proof fn lemma_canonic_generated(t: TestValue)
    requires
        t.valid(),
        t.is_canonic(),
    ensures
        is_the_canonic(t),
    decreases t, 0nat, 0int,
{
    match t {
        TestValue::Float(bits) => {
            assert(NAN_BITS % crate::value::SIGN_BIT == 0x7FFF_FFFF_FFFF_FFFFu64);
        },
        TestValue::Array(a) => {
            let xs = a.elements@;
            let vs = items_values(xs);
            assert(t.value() == Tree::Array(vs));
            assert forall|i: int| 0 <= i < xs.len() implies is_the_canonic(#[trigger] xs[i]) by {
                lemma_canonic_generated(xs[i]);
            }
            lemma_items_canonic(xs, 0);
            assert(t.value().wf() == (forall|j: int| 0 <= j < vs.len() ==> (#[trigger] vs[j]).wf()));
            assert(encodable(t.value()) == (vs.len() <= MAX_COUNT && forall|i: int|
                0 <= i < vs.len() ==> encodable(#[trigger] vs[i])));
            assert forall|j: int| 0 <= j < vs.len() implies (#[trigger] vs[j]).wf() && encodable(
                vs[j],
            ) by {
                assert(is_the_canonic(xs[j]));
            }
        },
        TestValue::MapOf(a) => {
            let es = a.elements@;
            let l = listing(es);
            assert forall|i: int| 0 <= i < es.len() implies is_the_canonic((#[trigger] es[i]).0)
                && is_the_canonic(es[i].1) by {
                lemma_canonic_generated(es[i].0);
                lemma_canonic_generated(es[i].1);
            }
            lemma_listed(es, es.len());
            assert(l.take(es.len() as int) =~= l);
            assert(t.value() == Tree::Mapping(l));
            lemma_entries_canonic(es, 0);
            assert forall|i: int, j: int| 0 <= i < j < l.len() implies #[trigger] key_below(
                l,
                i,
                j,
            ) by {
                assert(listed_below(es, i, j));
            }
            assert forall|j: int| 0 <= j < l.len() implies (#[trigger] l[j]).0.wf() && l[j].1.wf()
                && encodable(l[j].0) && encodable(l[j].1) by {
                assert(is_the_canonic(es[j].0) && is_the_canonic(es[j].1));
            }
            assert(t.value().wf() == entries_wf(l));
            assert(encodable(t.value()) == (l.len() <= MAX_COUNT && forall|i: int|
                0 <= i < l.len() ==> encodable((#[trigger] l[i]).0) && encodable(l[i].1)));
        },
        _ => {},
    }
}

proof fn lemma_items_canonic(xs: Seq<TestValue>, i: int)
    requires
        0 <= i <= xs.len(),
        forall|j: int| 0 <= j < xs.len() ==> is_the_canonic(#[trigger] xs[j]),
    ensures
        items_bytes(xs, i) == canonic_items(items_values(xs), i),
    decreases xs.len() - i,
{
    if i < xs.len() {
        lemma_items_canonic(xs, i + 1);
        assert(is_the_canonic(xs[i]));
        assert(items_values(xs)[i] == xs[i].value());
    }
}

proof fn lemma_entries_canonic(es: Seq<(TestValue, TestValue)>, i: int)
    requires
        0 <= i <= es.len(),
        forall|j: int|
            0 <= j < es.len() ==> is_the_canonic((#[trigger] es[j]).0) && is_the_canonic(es[j].1),
    ensures
        entries_bytes(es, i) == canonic_entries(listing(es), i),
    decreases es.len() - i,
{
    if i < es.len() {
        lemma_entries_canonic(es, i + 1);
        assert(is_the_canonic(es[i].0) && is_the_canonic(es[i].1));
        assert(listing(es)[i] == (es[i].0.value(), es[i].1.value()));
    }
}

/// Entries that are listed in strictly ascending order of their keys are bound as they are
/// listed.
proof fn lemma_listed(es: Seq<(TestValue, TestValue)>, n: nat)
    requires
        n <= es.len(),
        forall|i: int, j: int| 0 <= i < j < es.len() ==> #[trigger] listed_below(es, i, j),
    ensures
        entries_value(es, n) == listing(es).take(n as int),
    decreases n,
{
    let l = listing(es);
    if n > 0 {
        lemma_listed(es, (n - 1) as nat);
        let acc = l.take((n - 1) as int);
        assert forall|j: int| 0 <= j < acc.len() implies order(
            (#[trigger] acc[j]).0,
            es[n - 1].0.value(),
        ) == Order::Less by {
            assert(listed_below(es, j, n - 1));
        }
        lemma_insert_above(acc, es[n - 1].0.value(), es[n - 1].1.value());
        assert(acc.push(l[n - 1]) =~= l.take(n as int));
    } else {
        assert(l.take(0) =~= Seq::<(Tree, Tree)>::empty());
    }
}

/// The canonic decoder accepts the chosen encoding of every value that `is_canonic` holds
/// of, and gives the value.
pub proof fn law_canonic_generated_accepted(t: TestValue, rest: Seq<u8>)
    requires
        t.valid(),
        t.is_canonic(),
    ensures
        decode(t.bytes() + rest, 0, true) == Ok::<(Tree, int), (int, DecodeError)>(
            (t.value(), t.bytes().len() as int),
        ),
{
    lemma_canonic_generated(t);
    let s = t.bytes() + rest;
    assert(s.subrange(0, t.bytes().len() as int) =~= t.bytes());
    lemma_decode_canonic(s, 0, t.value(), true);
}

/// What the canonic decoder accepts the permissive decoder reads in the same way.
proof fn lemma_same_in_both(s: Seq<u8>, pos: int)
    requires
        decode(s, pos, true).is_ok(),
    ensures
        decode(s, pos, false) == decode(s, pos, true),
{
    crate::compact::laws::lemma_encode_of_decode(s, pos);
    let (t, end) = decode(s, pos, true)->Ok_0;
    lemma_decode_canonic(s, pos, t, false);
}

/// Where the canonic decoder accepts a chosen encoding, `is_canonic` holds of the value
/// with its choices.
pub proof fn lemma_accepted_canonic(s: Seq<u8>, pos: int, t: TestValue)
    requires
        t.valid(),
        stands_at(s, pos, t.bytes()),
        decode(s, pos, true).is_ok(),
    ensures
        t.is_canonic(),
    decreases t, 0nat, 0int,
{
    lemma_generated_len(t);
    lemma_pow256();
    let c = t.bytes();
    assert(s.subrange(pos, pos + c.len())[0] == c[0]);
    match t {
        TestValue::Nil => {},
        TestValue::Bool(b) => {},
        TestValue::Int(v) => {
            let w = chosen_width(int_width(v.n as int), v.bytes as nat);
            let u = unsigned_of(v.n as int, w);
            lemma_decode_head(s, pos, 0x60, u, w);
            assert(decode_int(s, pos, false) == Ok::<(int, int), (int, DecodeError)>(
                (v.n as int, pos + c.len()),
            ));
            assert(decode_int(s, pos, true).is_ok());
        },
        TestValue::Float(bits) => {
            lemma_stands_concat(s, pos, seq![0x40u8], be_bytes(bits as nat, 8));
            lemma_be_bytes_len(bits as nat, 8);
            lemma_be_value_of_bytes(bits as nat, 8);
            assert(decode_float(s, pos, false) == Ok::<(u64, int), (int, DecodeError)>(
                (bits, pos + 9),
            ));
            assert(decode_float(s, pos, true).is_ok());
        },
        TestValue::ByteString(b) => {
            let n = b.elements@.len();
            let h = count_bytes(0x80, n, count_choice(n, b.count_width));
            lemma_stands_concat(s, pos, h, b.elements@);
            lemma_generated_count(
                s,
                pos,
                0x80,
                4,
                n,
                b.count_width,
                DecodeError::ExpectedBytes,
                DecodeError::OutOfBoundsString,
            );
            assert(decode_bytes(s, pos, true).is_err());
        },
        TestValue::Array(a) => {
            let xs = a.elements@;
            let h = count_bytes(0xA0, xs.len(), count_choice(xs.len(), a.count_width));
            lemma_stands_concat(s, pos, h, items_bytes(xs, 0));
            lemma_generated_count(
                s,
                pos,
                0xA0,
                5,
                xs.len(),
                a.count_width,
                DecodeError::ExpectedArray,
                DecodeError::OutOfBoundsArray,
            );
            let ok = decode_count(
                s,
                pos,
                true,
                5,
                DecodeError::ExpectedArray,
                DecodeError::OutOfBoundsArray,
            );
            assert(ok.is_ok());
            assert(ok == Ok::<(nat, int), (int, DecodeError)>((xs.len(), pos + h.len())));
            lemma_accepted_items(s, pos + h.len(), xs, 0, Seq::empty());
        },
        TestValue::SetOf(a) => {
            let xs = a.elements@;
            let h = count_bytes(0xC0, xs.len(), count_choice(xs.len(), a.count_width));
            lemma_stands_concat(s, pos, h, items_bytes(xs, 0));
            lemma_generated_count(
                s,
                pos,
                0xC0,
                6,
                xs.len(),
                a.count_width,
                DecodeError::ExpectedMap,
                DecodeError::OutOfBoundsSet,
            );
        },
        TestValue::MapOf(a) => {
            let es = a.elements@;
            let h = count_bytes(0xE0, es.len(), count_choice(es.len(), a.count_width));
            lemma_stands_concat(s, pos, h, entries_bytes(es, 0));
            lemma_generated_count(
                s,
                pos,
                0xE0,
                7,
                es.len(),
                a.count_width,
                DecodeError::ExpectedMap,
                DecodeError::OutOfBoundsMap,
            );
            let ok = decode_count(
                s,
                pos,
                true,
                7,
                DecodeError::ExpectedMap,
                DecodeError::OutOfBoundsMap,
            );
            assert(ok.is_ok());
            assert(ok == Ok::<(nat, int), (int, DecodeError)>((es.len(), pos + h.len())));
            assert(listing(es).take(0) =~= Seq::<(Tree, Tree)>::empty());
            lemma_accepted_entries(s, pos + h.len(), es, 0, Seq::empty());
        },
    }
}

proof fn lemma_accepted_items(s: Seq<u8>, pos: int, xs: Seq<TestValue>, i: int, acc: Seq<Tree>)
    requires
        0 <= i <= xs.len(),
        forall|j: int| 0 <= j < xs.len() ==> (#[trigger] xs[j]).valid(),
        stands_at(s, pos, items_bytes(xs, i)),
        decode_items(s, pos, (xs.len() - i) as nat, true, acc).is_ok(),
    ensures
        forall|j: int| i <= j < xs.len() ==> (#[trigger] xs[j]).is_canonic(),
    decreases xs, 1nat, xs.len() - i,
{
    if i < xs.len() {
        let b = xs[i].bytes();
        lemma_generated_len(xs[i]);
        lemma_stands_concat(s, pos, b, items_bytes(xs, i + 1));
        assert(decode(s, pos, true).is_ok());
        lemma_same_in_both(s, pos);
        lemma_generated_decodes(s, pos, xs[i]);
        lemma_accepted_canonic(s, pos, xs[i]);
        lemma_accepted_items(s, pos + b.len(), xs, i + 1, acc.push(xs[i].value()));
    }
}

proof fn lemma_accepted_entries(
    s: Seq<u8>,
    pos: int,
    es: Seq<(TestValue, TestValue)>,
    i: int,
    acc: Seq<(Tree, Tree)>,
)
    requires
        0 <= i <= es.len(),
        forall|j: int| 0 <= j < es.len() ==> (#[trigger] es[j]).0.valid() && es[j].1.valid(),
        stands_at(s, pos, entries_bytes(es, i)),
        decode_entries(s, pos, (es.len() - i) as nat, true, false, acc).is_ok(),
        acc == listing(es).take(i),
        forall|a: int, b: int| 0 <= a < b < i ==> #[trigger] listed_below(es, a, b),
    ensures
        forall|j: int|
            i <= j < es.len() ==> (#[trigger] es[j]).0.is_canonic() && es[j].1.is_canonic(),
        forall|a: int, b: int| 0 <= a < b < es.len() ==> #[trigger] listed_below(es, a, b),
    decreases es, 1nat, es.len() - i,
{
    if i < es.len() {
        let k = es[i].0.bytes();
        let v = es[i].1.bytes();
        let key = es[i].0.value();
        let value = es[i].1.value();
        lemma_generated_len(es[i].0);
        lemma_generated_len(es[i].1);
        lemma_stands_concat(s, pos, k + v, entries_bytes(es, i + 1));
        lemma_stands_concat(s, pos, k, v);
        assert(decode(s, pos, true).is_ok());
        lemma_same_in_both(s, pos);
        lemma_generated_decodes(s, pos, es[i].0);
        assert(decode(s, pos, true) == Ok::<(Tree, int), (int, DecodeError)>((key, pos + k.len())));
        if i > 0 {
            assert(acc.last() == listing(es)[i - 1]);
            assert(order(acc.last().0, key) == Order::Less);
            assert(listed_below(es, i - 1, i));
        }
        assert forall|a: int| 0 <= a < i implies #[trigger] listed_below(es, a, i) by {
            if a < i - 1 {
                assert(listed_below(es, a, i - 1));
                crate::order_laws::lemma_order_composes(
                    es[a].0.value(),
                    es[i - 1].0.value(),
                    es[i].0.value(),
                );
            }
        }
        assert(decode(s, pos + k.len(), true).is_ok());
        lemma_same_in_both(s, pos + k.len());
        lemma_generated_decodes(s, pos + k.len(), es[i].1);
        assert forall|j: int| 0 <= j < acc.len() implies order((#[trigger] acc[j]).0, key)
            == Order::Less by {
            assert(acc[j] == listing(es)[j]);
            assert(listed_below(es, j, i));
        }
        lemma_insert_above(acc, key, value);
        assert(acc.push((key, value)) =~= listing(es).take(i + 1));
        lemma_accepted_canonic(s, pos, es[i].0);
        lemma_accepted_canonic(s, pos + k.len(), es[i].1);
        lemma_accepted_entries(s, pos + k.len() + v.len(), es, i + 1, acc.push((key, value)));
    }
}

/// The canonic decoder accepts the chosen encoding of a value exactly where `is_canonic`
/// holds of the value with its choices, whatever follows the encoding.
pub proof fn law_generated_canonic_exactly(t: TestValue, rest: Seq<u8>)
    requires
        t.valid(),
    ensures
        decode(t.bytes() + rest, 0, true).is_ok() == t.is_canonic(),
{
    let s = t.bytes() + rest;
    assert(s.subrange(0, t.bytes().len() as int) =~= t.bytes());
    if t.is_canonic() {
        law_canonic_generated_accepted(t, rest);
    }
    if decode(s, 0, true).is_ok() {
        lemma_accepted_canonic(s, 0, t);
    }
}

/// The same value in the same compact encoding, for a value that is encoded compactly.
pub open spec fn as_compact(t: crate::test_value::TestValue) -> TestValue {
    match t {
        crate::test_value::TestValue::Nil(_, _) => TestValue::Nil,
        crate::test_value::TestValue::Bool(_, b) => TestValue::Bool(b.value()),
        crate::test_value::TestValue::Int(_, v) => TestValue::Int(
            crate::compact::test_value::Int { n: v.value(), bytes: v->Compact_bytes },
        ),
    }
}

/// The compact decoder accepts every encoding that is marked compact, and the canonic
/// decoder every encoding that is marked canonic; both give the value.
pub proof fn law_marked_compact_accepted(t: crate::test_value::TestValue, rest: Seq<u8>)
    requires
        t.is_compact(),
    ensures
        decode(t.bytes() + rest, 0, false) == Ok::<(Tree, int), (int, DecodeError)>(
            (t.value(), t.bytes().len() as int),
        ),
        t.is_canonic() ==> decode(t.bytes() + rest, 0, true) == Ok::<
            (Tree, int),
            (int, DecodeError),
        >((t.value(), t.bytes().len() as int)),
{
    let c = as_compact(t);
    assert(c.bytes() =~= t.bytes()) by {
        match t {
            crate::test_value::TestValue::Nil(s, v) => {
                assert(s.bytes() =~= Seq::<u8>::empty());
            },
            crate::test_value::TestValue::Bool(s, v) => {
                assert(s.bytes() =~= Seq::<u8>::empty());
            },
            crate::test_value::TestValue::Int(s, v) => {
                assert(s.bytes() =~= Seq::<u8>::empty());
            },
        }
    }
    assert(c.value() == t.value());
    law_permissive_round_trip(c, rest);
    if t.is_canonic() {
        law_canonic_generated_accepted(c, rest);
    }
}

} // verus!

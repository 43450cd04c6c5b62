//! What holds of the compact codec: decoding inverts the canonic encoding, the canonic
//! decoder accepts nothing but that encoding, and the permissive decoder accepts all of it.
use crate::compact::de::{
    decode, decode_count, decode_entries, decode_float, decode_int, decode_items,
    decode_number, CanonicityError, DecodeError, Outcome,
};
use crate::compact::ser::{canonic, canonic_entries, canonic_items, encodable};
use crate::compact::wire::{
    arg_of_width, be_bytes, be_value, count_bytes, count_width, head_bytes, int_width,
    lemma_be_bytes_len, lemma_be_bytes_of_value, lemma_be_value_of_bytes, lemma_pow256, pow256,
    signed_of, unsigned_of, MAX_COUNT,
};
use crate::entries::{insert, lemma_insert_wf, lemma_lower_bound, lower_bound};
use crate::order::{entries_wf, key_below, keys_ascend, order, Order};
use crate::value::{is_nan, Tree, Value, NAN_BITS};
use vstd::prelude::*;

verus! {

/// The bytes `x` stand in `s` at offset `pos`.
pub open spec fn stands_at(s: Seq<u8>, pos: int, x: Seq<u8>) -> bool {
    0 <= pos && pos + x.len() <= s.len() && s.subrange(pos, pos + x.len()) == x
}

/// Where `a + b` stands, `a` stands, and `b` right after it; and the other way round.
pub proof fn lemma_stands_concat(s: Seq<u8>, pos: int, a: Seq<u8>, b: Seq<u8>)
    ensures
        stands_at(s, pos, a + b) == (stands_at(s, pos, a) && stands_at(s, pos + a.len(), b)),
{
    if stands_at(s, pos, a + b) {
        let ab = s.subrange(pos, pos + (a + b).len());
        assert forall|i: int| 0 <= i < a.len() implies s.subrange(pos, pos + a.len())[i]
            == a[i] by {
            assert(ab[i] == (a + b)[i]);
        }
        assert(s.subrange(pos, pos + a.len()) =~= a);
        assert forall|i: int| 0 <= i < b.len() implies s.subrange(
            pos + a.len(),
            pos + a.len() + b.len(),
        )[i] == b[i] by {
            assert(ab[a.len() + i] == (a + b)[a.len() + i]);
        }
        assert(s.subrange(pos + a.len(), pos + a.len() + b.len()) =~= b);
    }
    if stands_at(s, pos, a) && stands_at(s, pos + a.len(), b) {
        let x = s.subrange(pos, pos + a.len());
        let y = s.subrange(pos + a.len(), pos + a.len() + b.len());
        assert forall|i: int| 0 <= i < (a + b).len() implies s.subrange(
            pos,
            pos + (a + b).len(),
        )[i] == (a + b)[i] by {
            if i < a.len() {
                assert(x[i] == a[i]);
            } else {
                assert(y[i - a.len()] == b[i - a.len()]);
            }
        }
        assert(s.subrange(pos, pos + (a + b).len()) =~= a + b);
    }
}

/// A tag byte and a number in the least width decode to that number.
pub proof fn lemma_decode_head(s: Seq<u8>, pos: int, tag: u8, u: nat, w: nat)
    requires
        tag % 32 == 0,
        w == 0 || w == 1 || w == 2 || w == 4 || w == 8,
        w == 0 ==> u <= 27,
        u < pow256(w) || w == 0,
        stands_at(s, pos, head_bytes(tag, u, w)),
    ensures
        0 <= pos < s.len(),
        s[pos] / 32 == tag / 32,
        decode_number(s, pos) == Ok::<((nat, nat), int), (int, DecodeError)>(
            ((u, w), pos + head_bytes(tag, u, w).len()),
        ),
        head_bytes(tag, u, w).len() == 1 + w,
{
    let h = head_bytes(tag, u, w);
    lemma_be_bytes_len(u, w);
    assert(s.subrange(pos, pos + h.len())[0] == h[0]);
    if w == 0 {
        assert(h[0] == (tag + u) as u8);
    } else {
        assert(h[0] == (tag + arg_of_width(w)) as u8);
        lemma_stands_concat(s, pos, seq![(tag + arg_of_width(w)) as u8], be_bytes(u, w));
        lemma_be_value_of_bytes(u, w);
    }
}

/// The canonic encoding of a value has at least one byte.
pub proof fn lemma_canonic_len(t: Tree)
    ensures
        canonic(t).len() >= 1,
{
    match t {
        Tree::Int(n) => {
            lemma_be_bytes_len(unsigned_of(n as int, int_width(n as int)), int_width(n as int));
        },
        Tree::Array(xs) => {
            lemma_be_bytes_len(xs.len(), count_width(xs.len()));
        },
        Tree::Mapping(es) => {
            lemma_be_bytes_len(es.len(), count_width(es.len()));
        },
        _ => {},
    }
}

/// In both modes, decoding the canonic encoding of a valid value gives the value back, and
/// ends where the encoding ends.
pub proof fn lemma_decode_canonic(s: Seq<u8>, pos: int, t: Tree, mode: bool)
    requires
        t.wf(),
        encodable(t),
        stands_at(s, pos, canonic(t)),
    ensures
        decode(s, pos, mode) == Ok::<(Tree, int), (int, DecodeError)>((t, pos + canonic(t).len())),
    decreases t, 0nat, 0int,
{
    lemma_canonic_len(t);
    lemma_pow256();
    let c = canonic(t);
    assert(s.subrange(pos, pos + c.len())[0] == c[0]);
    match t {
        Tree::Nil => {},
        Tree::Bool(b) => {},
        Tree::Float(bits) => {
            lemma_stands_concat(s, pos, seq![0x40u8], be_bytes(bits as nat, 8));
            lemma_be_bytes_len(bits as nat, 8);
            lemma_be_value_of_bytes(bits as nat, 8);
            assert(decode_float(s, pos, mode) == Ok::<(u64, int), (int, DecodeError)>(
                (bits, pos + 9),
            ));
        },
        Tree::Int(n) => {
            let w = int_width(n as int);
            let u = unsigned_of(n as int, w);
            lemma_decode_head(s, pos, 0x60, u, w);
            assert(decode_int(s, pos, mode) == Ok::<(int, int), (int, DecodeError)>(
                (n as int, pos + c.len()),
            ));
        },
        Tree::Array(xs) => {
            let w = count_width(xs.len());
            let h = count_bytes(0xA0, xs.len(), w);
            lemma_stands_concat(s, pos, h, canonic_items(xs, 0));
            lemma_decode_head(s, pos, 0xA0, xs.len(), w);
            assert(decode_count(
                s,
                pos,
                mode,
                5,
                DecodeError::ExpectedArray,
                DecodeError::OutOfBoundsArray,
            ) == Ok::<(nat, int), (int, DecodeError)>((xs.len(), pos + h.len())));
            assert(xs.take(0) =~= Seq::empty());
            lemma_decode_canonic_items(s, pos + h.len(), xs, 0, mode);
            assert(xs.take(xs.len() as int) =~= xs);
        },
        Tree::Mapping(es) => {
            let w = count_width(es.len());
            let h = count_bytes(0xE0, es.len(), w);
            lemma_stands_concat(s, pos, h, canonic_entries(es, 0));
            lemma_decode_head(s, pos, 0xE0, es.len(), w);
            assert(decode_count(
                s,
                pos,
                mode,
                7,
                DecodeError::ExpectedMap,
                DecodeError::OutOfBoundsMap,
            ) == Ok::<(nat, int), (int, DecodeError)>((es.len(), pos + h.len())));
            assert(es.take(0) =~= Seq::empty());
            lemma_decode_canonic_entries(s, pos + h.len(), es, 0, mode);
        },
    }
}

proof fn lemma_decode_canonic_items(s: Seq<u8>, pos: int, xs: Seq<Tree>, i: int, mode: bool)
    requires
        0 <= i <= xs.len(),
        forall|j: int| 0 <= j < xs.len() ==> (#[trigger] xs[j]).wf(),
        forall|j: int| 0 <= j < xs.len() ==> encodable(#[trigger] xs[j]),
        stands_at(s, pos, canonic_items(xs, i)),
    ensures
        decode_items(s, pos, (xs.len() - i) as nat, mode, xs.take(i)) == Ok::<
            (Seq<Tree>, int),
            (int, DecodeError),
        >((xs, pos + canonic_items(xs, i).len())),
    decreases xs, 1nat, xs.len() - i,
{
    if i < xs.len() {
        let c = canonic(xs[i]);
        lemma_canonic_len(xs[i]);
        lemma_stands_concat(s, pos, c, canonic_items(xs, i + 1));
        lemma_decode_canonic(s, pos, xs[i], mode);
        lemma_decode_canonic_items(s, pos + c.len(), xs, i + 1, mode);
        assert(xs.take(i).push(xs[i]) =~= xs.take(i + 1));
    } else {
        assert(xs.take(i) =~= xs);
    }
}

/// Binding a key above all keys of the entries puts the entry at their end.
pub proof fn lemma_insert_above(acc: Seq<(Tree, Tree)>, key: Tree, value: Tree)
    requires
        forall|j: int| 0 <= j < acc.len() ==> order((#[trigger] acc[j]).0, key) == Order::Less,
    ensures
        insert(acc, key, value) == acc.push((key, value)),
{
    lemma_lower_bound(acc, key, 0);
    let p = lower_bound(acc, key, 0);
    if p < acc.len() {
        assert(order(acc[p].0, key) == Order::Less);
    }
    assert(acc.insert(p, (key, value)) =~= acc.push((key, value)));
}

proof fn lemma_decode_canonic_entries(
    s: Seq<u8>,
    pos: int,
    es: Seq<(Tree, Tree)>,
    i: int,
    mode: bool,
)
    requires
        0 <= i <= es.len(),
        entries_wf(es),
        forall|j: int| 0 <= j < es.len() ==> encodable((#[trigger] es[j]).0) && encodable(es[j].1),
        stands_at(s, pos, canonic_entries(es, i)),
    ensures
        decode_entries(s, pos, (es.len() - i) as nat, mode, false, es.take(i)) == Ok::<
            (Seq<(Tree, Tree)>, int),
            (int, DecodeError),
        >((es, pos + canonic_entries(es, i).len())),
    decreases es, 1nat, es.len() - i,
{
    if i < es.len() {
        let k = canonic(es[i].0);
        let v = canonic(es[i].1);
        lemma_canonic_len(es[i].0);
        lemma_canonic_len(es[i].1);
        assert(es[i].0.wf() && es[i].1.wf());
        lemma_stands_concat(s, pos, k + v, canonic_entries(es, i + 1));
        lemma_stands_concat(s, pos, k, v);
        lemma_decode_canonic(s, pos, es[i].0, mode);
        lemma_decode_canonic(s, pos + k.len(), es[i].1, mode);
        lemma_decode_canonic_entries(s, pos + k.len() + v.len(), es, i + 1, mode);
        let acc = es.take(i);
        assert forall|j: int| 0 <= j < acc.len() implies order(
            (#[trigger] acc[j]).0,
            es[i].0,
        ) == Order::Less by {
            assert(key_below(es, j, i));
        }
        lemma_insert_above(acc, es[i].0, es[i].1);
        assert(acc.push(es[i]) =~= es.take(i + 1));
        if acc.len() > 0 {
            assert(acc.last() == acc[acc.len() - 1]);
        }
    } else {
        assert(es.take(i) =~= es);
    }
}

/// Canonic round trip, from the value: the canonic decoder gives back every valid value
/// from its canonic encoding, whatever follows the encoding.
pub proof fn law_decode_inverts_encode(v: Value, rest: Seq<u8>)
    requires
        v.wf(),
        encodable(v@),
    ensures
        decode(canonic(v@) + rest, 0, true) == Ok::<(Tree, int), (int, DecodeError)>(
            (v@, canonic(v@).len() as int),
        ),
{
    let s = canonic(v@) + rest;
    assert(s.subrange(0, canonic(v@).len() as int) =~= canonic(v@));
    lemma_decode_canonic(s, 0, v@, true);
}

/// A number that was decoded under a tag stands in the input as the tag byte and the
/// number in the width that the tag byte announces.
pub proof fn lemma_head_of_number(s: Seq<u8>, pos: int, tag: u8)
    requires
        0 <= pos < s.len(),
        tag % 32 == 0,
        s[pos] / 32 == tag / 32,
        decode_number(s, pos).is_ok(),
    ensures
        ({
            let ((u, w), end) = decode_number(s, pos)->Ok_0;
            &&& stands_at(s, pos, head_bytes(tag, u, w))
            &&& end == pos + 1 + w
            &&& end <= s.len()
            &&& (w == 0 || w == 1 || w == 2 || w == 4 || w == 8)
            &&& (w == 0 ==> u <= 27)
            &&& (w > 0 ==> u < pow256(w))
        }),
{
    let ((u, w), end) = decode_number(s, pos)->Ok_0;
    let arg = (s[pos] % 32) as int;
    if w == 0 {
        assert(s.subrange(pos, pos + 1) =~= seq![(tag + u) as u8]);
    } else {
        let b = s.subrange(pos + 1, pos + 1 + w);
        lemma_be_bytes_of_value(b);
        assert(s.subrange(pos, pos + 1) =~= seq![(tag + arg_of_width(w)) as u8]);
        lemma_stands_concat(s, pos, seq![(tag + arg_of_width(w)) as u8], be_bytes(u, w));
    }
}

/// `t` is valid, and its canonic encoding stands in `s` from `pos` to `end`.
pub open spec fn encoded_at(s: Seq<u8>, pos: int, t: Tree, end: int) -> bool {
    &&& t.wf()
    &&& encodable(t)
    &&& stands_at(s, pos, canonic(t))
    &&& end == pos + canonic(t).len()
}

/// What the canonic decoder accepts is the canonic encoding of the value that it gives, and
/// that value is valid.
pub proof fn lemma_encode_of_decode(s: Seq<u8>, pos: int)
    requires
        decode(s, pos, true).is_ok(),
    ensures
        encoded_at(s, pos, (decode(s, pos, true)->Ok_0).0, (decode(s, pos, true)->Ok_0).1),
    decreases s.len() - pos, 0nat,
{
    lemma_pow256();
    let (t, end) = decode(s, pos, true)->Ok_0;
    let major = s[pos] / 32;
    let arg = s[pos] % 32;
    if major == 0 {
        assert(s.subrange(pos, pos + 1) =~= canonic(t));
        assert(encoded_at(s, pos, t, end));
    } else if major == 1 {
        assert(s.subrange(pos, pos + 1) =~= canonic(t));
        assert(encoded_at(s, pos, t, end));
    } else if major == 2 {
        let bits = decode_float(s, pos, true)->Ok_0.0;
        let b = s.subrange(pos + 1, pos + 9);
        lemma_be_bytes_of_value(b);
        assert(s.subrange(pos, pos + 1) =~= seq![0x40u8]);
        lemma_stands_concat(s, pos, seq![0x40u8], be_bytes(bits as nat, 8));
        assert(is_nan(NAN_BITS)) by {
            assert(NAN_BITS % crate::value::SIGN_BIT == 0x7FFF_FFFF_FFFF_FFFFu64);
        }
        assert(encoded_at(s, pos, t, end));
    } else if major == 3 {
        lemma_head_of_number(s, pos, 0x60);
        let ((u, w), e) = decode_number(s, pos)->Ok_0;
        let n = decode_int(s, pos, true)->Ok_0.0;
        assert(unsigned_of(n, w) == u);
        lemma_be_bytes_len(u, w);
        assert(t == Tree::Int(n as i64));
        assert(canonic(t) == head_bytes(0x60, u, w));
        assert(encoded_at(s, pos, t, end));
    } else if major == 4 {
    } else if major == 5 {
        lemma_head_of_number(s, pos, 0xA0);
        let (n, p) = decode_count(
            s,
            pos,
            true,
            5,
            DecodeError::ExpectedArray,
            DecodeError::OutOfBoundsArray,
        )->Ok_0;
        lemma_encode_of_decode_items(s, p, n, Seq::empty());
        let xs = t->Array_0;
        lemma_be_bytes_len(n, count_width(n));
        lemma_stands_concat(s, pos, count_bytes(0xA0, n, count_width(n)), canonic_items(xs, 0));
        assert(t == Tree::Array(xs));
        assert(t.wf() == (forall|j: int| 0 <= j < xs.len() ==> (#[trigger] xs[j]).wf()));
        assert(encodable(t) == (xs.len() <= MAX_COUNT && forall|j: int|
            0 <= j < xs.len() ==> encodable(#[trigger] xs[j])));
        assert(encoded_at(s, pos, t, end));
    } else if major == 6 {
    } else {
        lemma_head_of_number(s, pos, 0xE0);
        let (n, p) = decode_count(
            s,
            pos,
            true,
            7,
            DecodeError::ExpectedMap,
            DecodeError::OutOfBoundsMap,
        )->Ok_0;
        assert(keys_ascend(Seq::<(Tree, Tree)>::empty()));
        lemma_encode_of_decode_entries(s, p, n, Seq::empty());
        let es = t->Mapping_0;
        lemma_be_bytes_len(n, count_width(n));
        lemma_stands_concat(s, pos, count_bytes(0xE0, n, count_width(n)), canonic_entries(es, 0));
        assert(t == Tree::Mapping(es));
        assert(t.wf() == entries_wf(es));
        assert(encodable(t) == (es.len() <= MAX_COUNT && forall|j: int|
            0 <= j < es.len() ==> encodable((#[trigger] es[j]).0) && encodable(es[j].1)));
        assert(encoded_at(s, pos, t, end));
    }
}

proof fn lemma_encode_of_decode_items(s: Seq<u8>, pos: int, n: nat, acc: Seq<Tree>)
    requires
        0 <= pos <= s.len(),
        decode_items(s, pos, n, true, acc).is_ok(),
        forall|j: int| 0 <= j < acc.len() ==> (#[trigger] acc[j]).wf() && encodable(acc[j]),
    ensures
        ({
            let (xs, end) = decode_items(s, pos, n, true, acc)->Ok_0;
            &&& xs.len() == acc.len() + n
            &&& xs.take(acc.len() as int) == acc
            &&& forall|j: int| 0 <= j < xs.len() ==> (#[trigger] xs[j]).wf() && encodable(xs[j])
            &&& stands_at(s, pos, canonic_items(xs, acc.len() as int))
            &&& end == pos + canonic_items(xs, acc.len() as int).len()
        }),
    decreases s.len() - pos, n + 1,
{
    let (xs, end) = decode_items(s, pos, n, true, acc)->Ok_0;
    if n == 0 {
        assert(xs.take(acc.len() as int) =~= acc);
        assert(s.subrange(pos, pos) =~= Seq::empty());
    } else {
        lemma_encode_of_decode(s, pos);
        let (t, p) = decode(s, pos, true)->Ok_0;
        let more = acc.push(t);
        lemma_encode_of_decode_items(s, p, (n - 1) as nat, more);
        assert(xs.take(more.len() as int)[acc.len() as int] == t);
        assert(xs.take(acc.len() as int) =~= acc) by {
            assert forall|j: int| 0 <= j < acc.len() implies xs[j] == acc[j] by {
                assert(xs.take(more.len() as int)[j] == more[j]);
            }
        }
        lemma_stands_concat(s, pos, canonic(t), canonic_items(xs, (acc.len() + 1) as int));
    }
}

/// In valid entries whose last key is below `key`, every key is below `key`.
pub proof fn lemma_all_below(acc: Seq<(Tree, Tree)>, key: Tree)
    requires
        keys_ascend(acc),
        acc.len() > 0 ==> order(acc.last().0, key) == Order::Less,
    ensures
        forall|j: int| 0 <= j < acc.len() ==> order((#[trigger] acc[j]).0, key) == Order::Less,
{
    assert forall|j: int| 0 <= j < acc.len() implies order((#[trigger] acc[j]).0, key)
        == Order::Less by {
        if j < acc.len() - 1 {
            assert(key_below(acc, j, acc.len() - 1));
            crate::order_laws::lemma_order_composes(acc[j].0, acc.last().0, key);
        }
    }
}

proof fn lemma_encode_of_decode_entries(s: Seq<u8>, pos: int, n: nat, acc: Seq<(Tree, Tree)>)
    requires
        0 <= pos <= s.len(),
        decode_entries(s, pos, n, true, false, acc).is_ok(),
        entries_wf(acc),
        forall|j: int| 0 <= j < acc.len() ==> encodable((#[trigger] acc[j]).0) && encodable(acc[j].1),
    ensures
        ({
            let (es, end) = decode_entries(s, pos, n, true, false, acc)->Ok_0;
            &&& es.len() == acc.len() + n
            &&& es.take(acc.len() as int) == acc
            &&& entries_wf(es)
            &&& forall|j: int|
                0 <= j < es.len() ==> encodable((#[trigger] es[j]).0) && encodable(es[j].1)
            &&& stands_at(s, pos, canonic_entries(es, acc.len() as int))
            &&& end == pos + canonic_entries(es, acc.len() as int).len()
        }),
    decreases s.len() - pos, n + 1,
{
    let (es, end) = decode_entries(s, pos, n, true, false, acc)->Ok_0;
    if n == 0 {
        assert(es.take(acc.len() as int) =~= acc);
        assert(s.subrange(pos, pos) =~= Seq::empty());
    } else {
        lemma_encode_of_decode(s, pos);
        let (k, p) = decode(s, pos, true)->Ok_0;
        lemma_encode_of_decode(s, p);
        let (v, q) = decode(s, p, true)->Ok_0;
        lemma_all_below(acc, k);
        lemma_insert_above(acc, k, v);
        lemma_insert_wf(acc, k, v);
        let more = acc.push((k, v));
        lemma_encode_of_decode_entries(s, q, (n - 1) as nat, more);
        assert(es.take(more.len() as int)[acc.len() as int] == (k, v));
        assert(es.take(acc.len() as int) =~= acc) by {
            assert forall|j: int| 0 <= j < acc.len() implies es[j] == acc[j] by {
                assert(es.take(more.len() as int)[j] == more[j]);
            }
        }
        lemma_stands_concat(s, pos, canonic(k), canonic(v));
        lemma_stands_concat(s, pos, canonic(k) + canonic(v), canonic_entries(es, (acc.len() + 1) as int));
    }
}

/// Canonic round trip, from the bytes: what the canonic decoder accepts is the canonic
/// encoding of the value that it gives.
pub proof fn law_encode_inverts_decode(input: Seq<u8>)
    requires
        decode(input, 0, true).is_ok(),
    ensures
        ({
            let (t, end) = decode(input, 0, true)->Ok_0;
            0 < end <= input.len() && canonic(t) == input.subrange(0, end)
        }),
{
    lemma_encode_of_decode(input, 0);
    lemma_canonic_len(decode(input, 0, true)->Ok_0.0);
}

/// Every input that the canonic decoder accepts the permissive decoder accepts too, and it
/// gives the same value and the same end.
pub proof fn law_canonic_is_permissive(input: Seq<u8>)
    requires
        decode(input, 0, true).is_ok(),
    ensures
        decode(input, 0, false) == decode(input, 0, true),
{
    lemma_encode_of_decode(input, 0);
    let (t, end) = decode(input, 0, true)->Ok_0;
    lemma_decode_canonic(input, 0, t, false);
}

/// A value that was decoded ends after its start and within the input.
pub proof fn lemma_decode_advances(s: Seq<u8>, pos: int, mode: bool)
    requires
        decode(s, pos, mode).is_ok(),
    ensures
        pos < (decode(s, pos, mode)->Ok_0).1 <= s.len(),
    decreases s.len() - pos, 0nat,
{
    let major = s[pos] / 32;
    if major == 5 {
        let (n, p) = decode_count(
            s,
            pos,
            mode,
            5,
            DecodeError::ExpectedArray,
            DecodeError::OutOfBoundsArray,
        )->Ok_0;
        lemma_items_advance(s, p, n, mode, Seq::empty());
    } else if major == 6 {
        let (n, p) = decode_count(
            s,
            pos,
            mode,
            6,
            DecodeError::ExpectedMap,
            DecodeError::OutOfBoundsSet,
        )->Ok_0;
        lemma_entries_advance(s, p, n, mode, true, Seq::empty());
    } else if major == 7 {
        let (n, p) = decode_count(
            s,
            pos,
            mode,
            7,
            DecodeError::ExpectedMap,
            DecodeError::OutOfBoundsMap,
        )->Ok_0;
        lemma_entries_advance(s, p, n, mode, false, Seq::empty());
    }
}

proof fn lemma_items_advance(s: Seq<u8>, pos: int, n: nat, mode: bool, acc: Seq<Tree>)
    requires
        0 <= pos <= s.len(),
        decode_items(s, pos, n, mode, acc).is_ok(),
    ensures
        pos <= (decode_items(s, pos, n, mode, acc)->Ok_0).1 <= s.len(),
    decreases s.len() - pos, n + 1,
{
    if n > 0 {
        let (t, p) = decode(s, pos, mode)->Ok_0;
        lemma_items_advance(s, p, (n - 1) as nat, mode, acc.push(t));
    }
}

proof fn lemma_entries_advance(
    s: Seq<u8>,
    pos: int,
    n: nat,
    mode: bool,
    set: bool,
    acc: Seq<(Tree, Tree)>,
)
    requires
        0 <= pos <= s.len(),
        decode_entries(s, pos, n, mode, set, acc).is_ok(),
    ensures
        pos <= (decode_entries(s, pos, n, mode, set, acc)->Ok_0).1 <= s.len(),
    decreases s.len() - pos, n + 1,
{
    if n > 0 {
        let (k, p) = decode(s, pos, mode)->Ok_0;
        if set {
            lemma_entries_advance(s, p, (n - 1) as nat, mode, set, insert(acc, k, Tree::Nil));
        } else {
            let (v, q) = decode(s, p, mode)->Ok_0;
            lemma_entries_advance(s, q, (n - 1) as nat, mode, set, insert(acc, k, v));
        }
    }
}

/// Whether the byte at `at` is the one that breaks the rule: the first byte of a nil with an
/// argument, of a byte string or of a set; the byte right after the first byte of an int or
/// of a count in more bytes than it needs, or of a NaN with other bits than all ones; the
/// first byte of a key that the canonic decoder reads, and that is not above the key before
/// it.
pub open spec fn breaks(s: Seq<u8>, at: int, why: CanonicityError) -> bool {
    match why {
        CanonicityError::NilArgument => 0 <= at < s.len() && s[at] / 32 == 0 && s[at] % 32 != 0,
        CanonicityError::ByteString => 0 <= at < s.len() && s[at] / 32 == 4,
        CanonicityError::SetTag => 0 <= at < s.len() && s[at] / 32 == 6,
        CanonicityError::IntTooWide => 1 <= at <= s.len() && s[at - 1] / 32 == 3 && match decode_number(
            s,
            at - 1,
        ) {
            Ok(((u, w), _)) => w > 0 && int_width(signed_of(u, w)) != w,
            Err(_) => false,
        },
        CanonicityError::CountTooWide => 1 <= at <= s.len() && (s[at - 1] / 32 == 5 || s[at - 1]
            / 32 == 7) && match decode_number(s, at - 1) {
            Ok(((u, w), _)) => count_width(u) != w,
            Err(_) => false,
        },
        CanonicityError::NaN => 1 <= at && at + 8 <= s.len() && s[at - 1] == 0x40 && is_nan(
            be_value(s.subrange(at, at + 8)) as u64,
        ) && be_value(s.subrange(at, at + 8)) as u64 != NAN_BITS,
        CanonicityError::KeyOrder => decode(s, at, true).is_ok(),
    }
}

/// The failure is a break of a rule of the canonic encoding, at an offset from `pos` up to,
/// but not including, `end`: at the byte that breaks the rule.
pub open spec fn pinpointed<T>(s: Seq<u8>, r: Outcome<T>, pos: int, end: int) -> bool {
    match r {
        Ok(_) => false,
        Err((at, why)) => why is Canonicity && pos <= at < end && breaks(
            s,
            at,
            why->Canonicity_0,
        ),
    }
}

/// Where the permissive decoder accepts and the canonic one does not, the canonic one fails
/// with a break of a rule of the canonic encoding, within the bytes of the value.
pub proof fn lemma_pinpointed(s: Seq<u8>, pos: int)
    requires
        decode(s, pos, false).is_ok(),
        decode(s, pos, true).is_err(),
    ensures
        pinpointed(s, decode(s, pos, true), pos, (decode(s, pos, false)->Ok_0).1),
    decreases s.len() - pos, 0nat,
{
    lemma_pow256();
    lemma_decode_advances(s, pos, false);
    let major = s[pos] / 32;
    let end = (decode(s, pos, false)->Ok_0).1;
    if major == 3 {
        let ((u, w), e) = decode_number(s, pos)->Ok_0;
        assert(w > 0);
    } else if major == 5 {
        let (n, p) = decode_count(
            s,
            pos,
            false,
            5,
            DecodeError::ExpectedArray,
            DecodeError::OutOfBoundsArray,
        )->Ok_0;
        let ((u, w), e) = decode_number(s, pos)->Ok_0;
        lemma_items_advance(s, p, n, false, Seq::empty());
        if count_width(u) == w {
            lemma_items_pinpointed(s, p, n, Seq::empty(), Seq::empty());
        }
    } else if major == 7 {
        let (n, p) = decode_count(
            s,
            pos,
            false,
            7,
            DecodeError::ExpectedMap,
            DecodeError::OutOfBoundsMap,
        )->Ok_0;
        let ((u, w), e) = decode_number(s, pos)->Ok_0;
        lemma_entries_advance(s, p, n, false, false, Seq::empty());
        if count_width(u) == w {
            lemma_entries_pinpointed(s, p, n, Seq::empty(), Seq::empty());
        }
    }
}

proof fn lemma_items_pinpointed(s: Seq<u8>, pos: int, n: nat, acc: Seq<Tree>, strict: Seq<Tree>)
    requires
        0 <= pos <= s.len(),
        decode_items(s, pos, n, false, acc).is_ok(),
        decode_items(s, pos, n, true, strict).is_err(),
    ensures
        pinpointed(
            s,
            decode_items(s, pos, n, true, strict),
            pos,
            (decode_items(s, pos, n, false, acc)->Ok_0).1,
        ),
    decreases s.len() - pos, n + 1,
{
    if n > 0 {
        let (t, p) = decode(s, pos, false)->Ok_0;
        lemma_decode_advances(s, pos, false);
        lemma_items_advance(s, p, (n - 1) as nat, false, acc.push(t));
        if decode(s, pos, true).is_err() {
            lemma_pinpointed(s, pos);
        } else {
            lemma_encode_of_decode(s, pos);
            let (t2, p2) = decode(s, pos, true)->Ok_0;
            lemma_decode_canonic(s, pos, t2, false);
            lemma_items_pinpointed(s, p, (n - 1) as nat, acc.push(t), strict.push(t));
        }
    }
}

proof fn lemma_entries_pinpointed(
    s: Seq<u8>,
    pos: int,
    n: nat,
    acc: Seq<(Tree, Tree)>,
    strict: Seq<(Tree, Tree)>,
)
    requires
        0 <= pos <= s.len(),
        decode_entries(s, pos, n, false, false, acc).is_ok(),
        decode_entries(s, pos, n, true, false, strict).is_err(),
    ensures
        pinpointed(
            s,
            decode_entries(s, pos, n, true, false, strict),
            pos,
            (decode_entries(s, pos, n, false, false, acc)->Ok_0).1,
        ),
    decreases s.len() - pos, n + 1,
{
    if n > 0 {
        let (k, p) = decode(s, pos, false)->Ok_0;
        let (v, q) = decode(s, p, false)->Ok_0;
        lemma_decode_advances(s, pos, false);
        lemma_decode_advances(s, p, false);
        lemma_entries_advance(s, q, (n - 1) as nat, false, false, insert(acc, k, v));
        if decode(s, pos, true).is_err() {
            lemma_pinpointed(s, pos);
        } else {
            lemma_encode_of_decode(s, pos);
            let (k2, p2) = decode(s, pos, true)->Ok_0;
            lemma_decode_canonic(s, pos, k2, false);
            if strict.len() > 0 && order(strict.last().0, k) != Order::Less {
            } else if decode(s, p, true).is_err() {
                lemma_pinpointed(s, p);
            } else {
                lemma_encode_of_decode(s, p);
                let (v2, q2) = decode(s, p, true)->Ok_0;
                lemma_decode_canonic(s, p, v2, false);
                lemma_entries_pinpointed(
                    s,
                    q,
                    (n - 1) as nat,
                    insert(acc, k, v),
                    insert(strict, k, v),
                );
            }
        }
    }
}

/// An input that is a compact encoding but not the canonic one fails in the canonic decoder
/// with a break of a rule of the canonic encoding, at the byte of the encoding that breaks
/// the rule (see `breaks`), however deep in the value that byte stands.
pub proof fn law_canonicity_pinpointed(input: Seq<u8>)
    requires
        decode(input, 0, false).is_ok(),
        decode(input, 0, true).is_err(),
    ensures
        ({
            let (at, why) = decode(input, 0, true)->Err_0;
            why is Canonicity && 0 <= at < (decode(input, 0, false)->Ok_0).1 && breaks(
                input,
                at,
                why->Canonicity_0,
            )
        }),
{
    lemma_pinpointed(input, 0);
}

/// In the canonic mode the head of a map is given only for a valid map in its canonic
/// encoding: for one whose keys ascend strictly.
pub proof fn law_canonic_map_head(input: Seq<u8>, pos: int)
    requires
        crate::compact::de::decode_map_head(input, pos, true).is_ok(),
    ensures
        decode(input, pos, true).is_ok(),
        ({
            let (t, end) = decode(input, pos, true)->Ok_0;
            t is Mapping && t.wf() && stands_at(input, pos, canonic(t)) && crate::order::keys_ascend(
                t->Mapping_0,
            )
        }),
{
    lemma_encode_of_decode(input, pos);
    let (t, end) = decode(input, pos, true)->Ok_0;
    assert(t.wf() == crate::order::entries_wf(t->Mapping_0));
}

} // verus!

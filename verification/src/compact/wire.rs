//! The compact wire format: tags, widths and big-endian numbers.
use vstd::prelude::*;

verus! {

/// The major tag of nil, in the upper three bits of the first byte.
pub const TAG_NIL: u8 = 0x00;

/// The major tag of a bool.
pub const TAG_BOOL: u8 = 0x20;

/// The major tag of a float.
pub const TAG_FLOAT: u8 = 0x40;

/// The major tag of an int.
pub const TAG_INT: u8 = 0x60;

/// The major tag of a byte string.
pub const TAG_BYTES: u8 = 0x80;

/// The major tag of an array.
pub const TAG_ARRAY: u8 = 0xA0;

/// The major tag of a set: a map with all values nil.
pub const TAG_SET: u8 = 0xC0;

/// The major tag of a map.
pub const TAG_MAP: u8 = 0xE0;

/// The greatest count that a collection or a byte string may have: 2^63 - 1.
pub const MAX_COUNT: u64 = 0x7FFF_FFFF_FFFF_FFFF;

/// 256 to the power of `w`.
pub open spec fn pow256(w: nat) -> nat
    decreases w,
{
    if w == 0 {
        1
    } else {
        256 * pow256((w - 1) as nat)
    }
}

/// The `w` bytes that hold `n` modulo 256^w, the most significant byte first.
pub open spec fn be_bytes(n: nat, w: nat) -> Seq<u8>
    decreases w,
{
    if w == 0 {
        Seq::empty()
    } else {
        be_bytes(n / 256, (w - 1) as nat).push((n % 256) as u8)
    }
}

/// The number that the bytes hold, the most significant byte first.
pub open spec fn be_value(bytes: Seq<u8>) -> nat
    decreases bytes.len(),
{
    if bytes.len() == 0 {
        0
    } else {
        be_value(bytes.drop_last()) * 256 + bytes.last() as nat
    }
}

/// The number of bytes that follow a tag byte with the given argument.
pub open spec fn width_of_arg(arg: int) -> nat {
    if arg == 28 {
        1
    } else if arg == 29 {
        2
    } else if arg == 30 {
        4
    } else if arg == 31 {
        8
    } else {
        0
    }
}

/// The argument that announces `w` following bytes, for `w` one of 1, 2, 4 and 8.
pub open spec fn arg_of_width(w: nat) -> int {
    if w == 1 {
        28
    } else if w == 2 {
        29
    } else if w == 4 {
        30
    } else {
        31
    }
}

/// The signed number that `u` stands for in two's complement of `w` bytes.
pub open spec fn signed_of(u: nat, w: nat) -> int {
    if 2 * u >= pow256(w) {
        u - pow256(w)
    } else {
        u as int
    }
}

/// The number that stands for `n` in two's complement of `w` bytes.
pub open spec fn unsigned_of(n: int, w: nat) -> nat {
    if n >= 0 {
        n as nat
    } else {
        (n + pow256(w)) as nat
    }
}

/// The least number of following bytes that can hold the int `n`: none for 0 to 27.
pub open spec fn int_width(n: int) -> nat {
    if 0 <= n <= 27 {
        0
    } else if -0x80 <= n <= 0x7F {
        1
    } else if -0x8000 <= n <= 0x7FFF {
        2
    } else if -0x8000_0000 <= n <= 0x7FFF_FFFF {
        4
    } else {
        8
    }
}

/// The least number of following bytes that can hold the count `n`: none for 0 to 27.
pub open spec fn count_width(n: nat) -> nat {
    if n <= 27 {
        0
    } else if n <= 0xFF {
        1
    } else if n <= 0xFFFF {
        2
    } else if n <= 0xFFFF_FFFF {
        4
    } else {
        8
    }
}

/// A tag byte and what follows it for the number `u` in `w` bytes; for `w == 0` the number
/// is the argument itself.
pub open spec fn head_bytes(tag: u8, u: nat, w: nat) -> Seq<u8> {
    if w == 0 {
        seq![(tag + u) as u8]
    } else {
        seq![(tag + arg_of_width(w)) as u8] + be_bytes(u, w)
    }
}

/// The encoding of the int `n` with `w` following bytes.
pub open spec fn int_bytes(n: int, w: nat) -> Seq<u8> {
    head_bytes(TAG_INT, unsigned_of(n, w), w)
}

/// The encoding of the count `n` under the given tag with `w` following bytes.
pub open spec fn count_bytes(tag: u8, n: nat, w: nat) -> Seq<u8> {
    head_bytes(tag, n, w)
}

/// The values of the powers of 256 that the format uses.
pub proof fn lemma_pow256()
    ensures
        pow256(0) == 1,
        pow256(1) == 0x100,
        pow256(2) == 0x1_0000,
        pow256(4) == 0x1_0000_0000,
        pow256(8) == 0x1_0000_0000_0000_0000,
{
    reveal_with_fuel(pow256, 9);
}

/// `be_bytes` gives `w` bytes.
pub proof fn lemma_be_bytes_len(n: nat, w: nat)
    ensures
        be_bytes(n, w).len() == w,
    decreases w,
{
    if w > 0 {
        lemma_be_bytes_len(n / 256, (w - 1) as nat);
    }
}

/// A number below 256^w is the value of its `w` bytes.
pub proof fn lemma_be_value_of_bytes(n: nat, w: nat)
    requires
        n < pow256(w),
    ensures
        be_value(be_bytes(n, w)) == n,
    decreases w,
{
    if w > 0 {
        let b = be_bytes(n, w);
        lemma_be_bytes_len(n, w);
        assert(b.drop_last() =~= be_bytes(n / 256, (w - 1) as nat));
        assert(n / 256 < pow256((w - 1) as nat)) by (nonlinear_arith)
            requires
                n < 256 * pow256((w - 1) as nat),
        ;
        lemma_be_value_of_bytes(n / 256, (w - 1) as nat);
        assert(b.last() == (n % 256) as u8);
    } else {
        assert(be_bytes(n, w).len() == 0);
    }
}

/// Bytes are the bytes of their value, which is below 256 to the power of their number.
pub proof fn lemma_be_bytes_of_value(b: Seq<u8>)
    ensures
        be_value(b) < pow256(b.len()),
        be_bytes(be_value(b), b.len()) == b,
    decreases b.len(),
{
    if b.len() > 0 {
        lemma_be_bytes_of_value(b.drop_last());
        let hi = be_value(b.drop_last());
        let n = be_value(b);
        assert(n == hi * 256 + b.last() as nat);
        assert(n / 256 == hi && n % 256 == b.last() as nat);
        assert(be_bytes(n, b.len()) =~= b);
    } else {
        assert(be_bytes(be_value(b), b.len()) =~= b);
    }
}

/// Appends the `w` low bytes of `n`, the most significant first.
pub fn push_be(out: &mut Vec<u8>, n: u64, w: u8)
    ensures
        final(out)@ == old(out)@ + be_bytes(n as nat, w as nat),
    decreases w,
{
    if w > 0 {
        push_be(out, n / 256, w - 1);
        out.push((n % 256) as u8);
        assert(out@ =~= old(out)@ + be_bytes(n as nat, w as nat));
    } else {
        assert(out@ =~= old(out)@ + be_bytes(n as nat, w as nat));
    }
}

/// Reads the number held by `w` bytes of the input from `start` on.
pub fn read_be(input: &[u8], start: usize, w: usize) -> (n: u64)
    requires
        w <= 8,
        start + w <= input@.len(),
    ensures
        n == be_value(input@.subrange(start as int, start + w)),
{
    let mut acc: u64 = 0;
    let mut i: usize = 0;
    let len = input.len();
    proof {
        lemma_pow256();
        assert(input@.subrange(start as int, start as int).len() == 0);
    }
    while i < w
        invariant
            0 <= i <= w <= 8,
            start + w <= input@.len(),
            len == input@.len(),
            acc == be_value(input@.subrange(start as int, start + i)),
        decreases w - i,
    {
        let ghost before = input@.subrange(start as int, start + i);
        let ghost after = input@.subrange(start as int, start + i + 1);
        proof {
            lemma_be_bytes_of_value(before);
            lemma_be_bytes_of_value(after);
            assert(after.drop_last() =~= before);
            assert(after.last() == input@[start + i]);
            lemma_pow_bound(after.len());
        }
        acc = acc * 256 + input[start + i] as u64;
        i = i + 1;
    }
    acc
}

/// 256^w is at most 2^64 for `w` up to 8.
pub proof fn lemma_pow_bound(w: nat)
    requires
        w <= 8,
    ensures
        pow256(w) <= 0x1_0000_0000_0000_0000,
{
    reveal_with_fuel(pow256, 9);
}

/// The signed number that the unsigned one stands for in 64-bit two's complement.
pub fn to_signed(u: u64) -> (n: i64)
    ensures
        n == signed_of(u as nat, 8),
{
    proof {
        lemma_pow256();
    }
    if u < 0x8000_0000_0000_0000 {
        u as i64
    } else {
        ((u - 0x8000_0000_0000_0000) as i64) + i64::MIN
    }
}

/// The unsigned number that stands for the signed one in 64-bit two's complement.
pub fn to_unsigned(n: i64) -> (u: u64)
    ensures
        u == unsigned_of(n as int, 8),
{
    proof {
        lemma_pow256();
    }
    if n >= 0 {
        n as u64
    } else {
        ((n - i64::MIN) as u64) + 0x8000_0000_0000_0000
    }
}

} // verus!

//! Digits and other text that the human-readable encoding is made of.
use vstd::prelude::*;

verus! {

/// Appends the bytes to `out`.
pub fn push_all(out: &mut Vec<u8>, bytes: &[u8])
    ensures
        final(out)@ == old(out)@ + bytes@,
{
    let mut i: usize = 0;
    while i < bytes.len()
        invariant
            0 <= i <= bytes.len(),
            out@ == old(out)@ + bytes@.subrange(0, i as int),
        decreases bytes.len() - i,
    {
        out.push(bytes[i]);
        assert(out@ =~= old(out)@ + bytes@.subrange(0, i + 1));
        i = i + 1;
    }
    assert(bytes@.subrange(0, i as int) =~= bytes@);
}

/// Appends `n` copies of `byte` to `out`.
pub fn push_repeat(out: &mut Vec<u8>, byte: u8, n: usize)
    ensures
        final(out)@ == old(out)@ + Seq::new(n as nat, |i: int| byte),
{
    let mut i: usize = 0;
    while i < n
        invariant
            0 <= i <= n,
            out@ == old(out)@ + Seq::new(i as nat, |j: int| byte),
        decreases n - i,
    {
        out.push(byte);
        assert(out@ =~= old(out)@ + Seq::new((i + 1) as nat, |j: int| byte));
        i = i + 1;
    }
}

/// The ASCII digit for a number below 16: `0` to `9`, then `a` to `f`.
pub open spec fn digit_char(d: nat) -> u8 {
    if d < 10 {
        (0x30 + d) as u8
    } else {
        (0x57 + d) as u8
    }
}

/// The number that an ASCII digit stands for, in either case; 0 for other bytes.
pub open spec fn digit_value(b: u8) -> nat {
    if 0x30 <= b <= 0x39 {
        (b - 0x30) as nat
    } else if 0x41 <= b <= 0x46 {
        (b - 0x37) as nat
    } else if 0x61 <= b <= 0x66 {
        (b - 0x57) as nat
    } else {
        0
    }
}

/// The digits of `n` in the given base, the most significant first, without leading zeros;
/// one `0` for zero.
pub open spec fn digits(n: nat, base: nat) -> Seq<u8>
    decreases n,
    via digits_decreases
{
    if base < 2 || n < base {
        seq![digit_char(n)]
    } else {
        digits(n / base, base).push(digit_char(n % base))
    }
}

#[via_fn]
proof fn digits_decreases(n: nat, base: nat) {
    if base >= 2 && n >= base {
        lemma_quotient_less(n, base);
    }
}

/// Dividing a number by a base of at least two makes it less, unless it is zero.
pub proof fn lemma_quotient_less(n: nat, base: nat)
    requires
        base >= 2,
        n >= 1,
    ensures
        n / base < n,
        n == (n / base) * base + n % base,
        n % base < base,
{
    assert(n / base < n && n == (n / base) * base + n % base && n % base < base)
        by (nonlinear_arith)
        requires
            base >= 2,
            n >= 1,
    ;
}

/// The number that the digits stand for in the given base.
pub open spec fn digits_value(ds: Seq<u8>, base: nat) -> nat
    decreases ds.len(),
{
    if ds.len() == 0 {
        0
    } else {
        digits_value(ds.drop_last(), base) * base + digit_value(ds.last())
    }
}

/// The decimal text of an int: its digits, after a `-` if it is negative.
pub open spec fn int_text(n: int) -> Seq<u8> {
    if n < 0 {
        seq![0x2Du8] + digits((-n) as nat, 10)
    } else {
        digits(n as nat, 10)
    }
}

/// The ASCII digit for a number below 16.
pub fn digit_for(d: u8) -> (b: u8)
    requires
        d < 16,
    ensures
        b == digit_char(d as nat),
{
    if d < 10 {
        0x30 + d
    } else {
        0x57 + d
    }
}

/// Appends the digits of `n` in the given base.
pub fn push_digits(out: &mut Vec<u8>, n: u64, base: u64)
    requires
        2 <= base <= 16,
    ensures
        final(out)@ == old(out)@ + digits(n as nat, base as nat),
    decreases n,
{
    if n < base {
        out.push(digit_for(n as u8));
        assert(out@ =~= old(out)@ + digits(n as nat, base as nat));
    } else {
        proof {
            lemma_quotient_less(n as nat, base as nat);
        }
        push_digits(out, n / base, base);
        out.push(digit_for((n % base) as u8));
        assert(out@ =~= old(out)@ + digits(n as nat, base as nat));
    }
}

/// The magnitude of an int.
pub fn magnitude(n: i64) -> (m: u64)
    ensures
        m == (if n < 0 {
            -(n as int)
        } else {
            n as int
        }),
{
    if n >= 0 {
        n as u64
    } else if n == i64::MIN {
        0x8000_0000_0000_0000
    } else {
        (-n) as u64
    }
}

/// The digits of a number are digits of its base, and stand for the number.
pub proof fn lemma_digits(n: nat, base: nat)
    requires
        2 <= base <= 16,
    ensures
        digits(n, base).len() >= 1,
        forall|i: int|
            0 <= i < digits(n, base).len() ==> digit_value(#[trigger] digits(n, base)[i]) < base
                && digit_char(digit_value(digits(n, base)[i])) == digits(n, base)[i],
        digits_value(digits(n, base), base) == n,
    decreases n,
{
    if n >= base {
        lemma_quotient_less(n, base);
        lemma_digits(n / base, base);
        let d = digits(n, base);
        assert(d.drop_last() =~= digits(n / base, base));
        assert(d.last() == digit_char(n % base));
        assert(digit_value(digit_char(n % base)) == n % base);
        assert(digits_value(d, base) == digits_value(d.drop_last(), base) * base + digit_value(
            d.last(),
        ));
        assert(digits_value(d, base) == n);
        assert forall|i: int| 0 <= i < d.len() implies digit_value(#[trigger] d[i]) < base
            && digit_char(digit_value(d[i])) == d[i] by {
            if i < d.len() - 1 {
                assert(d[i] == digits(n / base, base)[i]);
            }
        }
    } else {
        let d = digits(n, base);
        assert(d.drop_last() =~= Seq::<u8>::empty());
        assert(digits_value(d.drop_last(), base) == 0);
        assert(d.last() == digit_char(n));
        assert(digit_value(digit_char(n)) == n);
        assert(digits_value(d, base) == digits_value(d.drop_last(), base) * base + digit_value(
            d.last(),
        ));
        assert(digits_value(d, base) == n);
    }
}

} // verus!

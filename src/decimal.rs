//! Decimal rendering of unsigned integers, as ASCII bytes.

use vstd::prelude::*;

verus! {

/// The decimal digits of `n`, most significant first, with no leading zero.
pub open spec fn decimal(n: nat) -> Seq<u8>
    decreases n,
{
    if n < 10 {
        seq![(0x30 + n) as u8]
    } else {
        decimal(n / 10).push((0x30 + n % 10) as u8)
    }
}

/// The number that a string of ASCII decimal digits denotes.
pub open spec fn digits_value(s: Seq<u8>) -> int
    decreases s.len(),
{
    if s.len() == 0 {
        0
    } else {
        digits_value(s.drop_last()) * 10 + (s.last() - 0x30)
    }
}

/// Reading a rendered number gives the number back.
pub proof fn lemma_decimal_value(n: nat)
    ensures
        digits_value(decimal(n)) == n,
        decimal(n).len() >= 1,
    decreases n,
{
    if n < 10 {
        assert(decimal(n).drop_last() =~= Seq::<u8>::empty());
        assert(digits_value(Seq::<u8>::empty()) == 0);
        assert(decimal(n).last() == (0x30 + n) as u8);
    } else {
        lemma_decimal_value(n / 10);
        assert(decimal(n).drop_last() =~= decimal(n / 10));
        assert(decimal(n).last() == (0x30 + n % 10) as u8);
        assert(n == (n / 10) * 10 + n % 10);
    }
}

/// Distinct numbers render differently.
pub proof fn lemma_decimal_injective(a: nat, b: nat)
    requires
        decimal(a) == decimal(b),
    ensures
        a == b,
{
    lemma_decimal_value(a);
    lemma_decimal_value(b);
}

pub open spec fn pow10(k: nat) -> nat
    decreases k,
{
    if k == 0 {
        1
    } else {
        10 * pow10((k - 1) as nat)
    }
}

proof fn lemma_decimal_len_pow(n: nat, k: nat)
    requires
        k >= 1,
        n < pow10(k),
    ensures
        decimal(n).len() <= k,
    decreases n,
{
    if n >= 10 {
        assert(k >= 2) by {
            if k == 1 {
                reveal_with_fuel(pow10, 2);
            }
        }
        let m = (k - 1) as nat;
        assert(n / 10 < pow10(m)) by (nonlinear_arith)
            requires
                n < 10 * pow10(m),
        ;
        lemma_decimal_len_pow(n / 10, m);
    }
}

/// A `u64` has at most twenty decimal digits.
pub proof fn lemma_decimal_len(n: nat)
    requires
        n <= u64::MAX,
    ensures
        1 <= decimal(n).len() <= 20,
{
    reveal_with_fuel(pow10, 21);
    lemma_decimal_len_pow(n, 20);
    lemma_decimal_value(n);
}

/// Renders `n` in decimal, as ASCII digits.
pub fn decimal_bytes(n: u64) -> (r: Vec<u8>)
    ensures
        r@ == decimal(n as nat),
    decreases n,
{
    if n < 10 {
        let mut v: Vec<u8> = Vec::new();
        v.push(0x30 + n as u8);
        assert(v@ =~= decimal(n as nat));
        v
    } else {
        let mut v = decimal_bytes(n / 10);
        v.push(0x30 + (n % 10) as u8);
        v
    }
}

} // verus!

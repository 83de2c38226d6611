//! Powers of two: the mathematical notion and the executable tests and
//! roundings built on it.

use vstd::prelude::*;

verus! {

/// `n` is a power of two: `1, 2, 4, 8, ...`.
pub open spec fn is_pow2(n: int) -> bool
    decreases n,
{
    if n <= 0 {
        false
    } else if n == 1 {
        true
    } else {
        n % 2 == 0 && is_pow2(n / 2)
    }
}

/// `r` is the smallest power of two that is at least `n`.
pub open spec fn is_next_pow2(n: int, r: int) -> bool {
    &&& is_pow2(r)
    &&& r >= n
    &&& forall|q: int| is_pow2(q) && q >= n ==> q >= r
}

/// The largest power of two that a `usize` holds.
pub open spec fn max_usize_pow2() -> int {
    usize::MAX / 2 + 1
}

proof fn lemma_bits_odd(n: usize)
    by (bit_vector)
    requires
        n > 1,
        n % 2 == 1,
    ensures
        n & ((n - 1) as usize) != 0,
{
}

proof fn lemma_bits_even(n: usize)
    by (bit_vector)
    requires
        n > 1,
        n % 2 == 0,
    ensures
        (n & ((n - 1) as usize) == 0) == ((n / 2) & ((n / 2 - 1) as usize) == 0),
{
}

proof fn lemma_bits_one(n: usize)
    by (bit_vector)
    requires
        n == 1,
    ensures
        n & ((n - 1) as usize) == 0,
{
}

/// The bit test `n & (n - 1) == 0` on a non-zero `n` decides powers of two.
pub proof fn lemma_pow2_bit_test(n: usize)
    requires
        n > 0,
    ensures
        (n & ((n - 1) as usize) == 0) == is_pow2(n as int),
    decreases n,
{
    if n == 1 {
        lemma_bits_one(n);
    } else if n % 2 == 1 {
        lemma_bits_odd(n);
    } else {
        lemma_bits_even(n);
        lemma_pow2_bit_test(n / 2);
    }
}

/// A power of two other than one is even, and its half is a power of two.
pub proof fn lemma_pow2_half(n: int)
    requires
        is_pow2(n),
        n > 1,
    ensures
        n % 2 == 0,
        is_pow2(n / 2),
        n == 2 * (n / 2),
{
}

/// Doubling a power of two gives a power of two.
pub proof fn lemma_pow2_double(n: int)
    requires
        is_pow2(n),
    ensures
        is_pow2(2 * n),
{
    assert((2 * n) % 2 == 0);
    assert((2 * n) / 2 == n);
}

/// Of two powers of two the larger is a multiple of the smaller, and the
/// quotient is a power of two.
pub proof fn lemma_pow2_divides(a: int, b: int)
    requires
        is_pow2(a),
        is_pow2(b),
        b <= a,
    ensures
        a % b == 0,
        is_pow2(a / b),
        (a / b) * b == a,
    decreases a,
{
    if a == b {
        assert(a / b == 1) by (nonlinear_arith)
            requires
                a == b,
                b > 0,
        ;
        assert(a % b == 0) by (nonlinear_arith)
            requires
                a == b,
                b > 0,
        ;
    } else {
        // b < a, so a > 1 and a / 2 >= b
        lemma_pow2_half(a);
        lemma_pow2_below_half(a, b);
        lemma_pow2_divides(a / 2, b);
        let h = a / 2;
        let q = h / b;
        assert(q * b == h);
        assert(a == (2 * q) * b) by (nonlinear_arith)
            requires
                q * b == h,
                a == 2 * h,
        ;
        assert(a / b == 2 * q && a % b == 0) by (nonlinear_arith)
            requires
                a == (2 * q) * b,
                b > 0,
        ;
        lemma_pow2_double(q);
    }
}

/// A power of two strictly below another is at most its half.
pub proof fn lemma_pow2_below_half(a: int, b: int)
    requires
        is_pow2(a),
        is_pow2(b),
        b < a,
    ensures
        a > 1,
        b <= a / 2,
    decreases a,
{
    if b == 1 {
        lemma_pow2_half(a);
    } else {
        lemma_pow2_half(a);
        lemma_pow2_half(b);
        lemma_pow2_below_half(a / 2, b / 2);
    }
}

/// `n != 0 && n & (n - 1) == 0`: whether `n` is a power of two.
pub fn is_power_of_two(n: usize) -> (r: bool)
    ensures
        r == is_pow2(n as int),
{
    if n == 0 {
        false
    } else {
        proof {
            lemma_pow2_bit_test(n);
        }
        n & (n - 1) == 0
    }
}

/// The smallest power of two that is at least `n` (one for `n == 0`), as
/// `usize::next_power_of_two` computes it where it does not overflow.
pub fn next_power_of_two(n: usize) -> (r: usize)
    requires
        n <= max_usize_pow2(),
    ensures
        is_next_pow2(n as int, r as int),
{
    let mut p: usize = 1;
    while p < n
        invariant
            p >= 1,
            is_pow2(p as int),
            n <= max_usize_pow2(),
            p == 1 || p / 2 < n,
            forall|q: int| is_pow2(q) && q >= n ==> q >= p,
        decreases usize::MAX - p,
    {
        proof {
            lemma_pow2_double(p as int);
            assert forall|q: int| is_pow2(q) && q >= n implies q >= 2 * p by {
                if q < 2 * p {
                    lemma_pow2_below_half(2 * p, q);
                }
            }
        }
        p = p * 2;
    }
    proof {
        assert forall|q: int| is_pow2(q) && q >= n implies q >= p by {}
    }
    p
}


proof fn lemma_is_pow2_agrees(n: int)
    ensures
        is_pow2(n) == vstd::arithmetic::power2::is_pow2(n),
    decreases n,
{
    reveal(vstd::arithmetic::power2::is_pow2);
    if n > 1 {
        lemma_is_pow2_agrees(n / 2);
    }
}

/// With a power-of-two `hop`, the mask test `head & (hop - 1) == 0` holds
/// exactly at multiples of `hop`: windows open every `hop` samples.
pub proof fn lemma_hop_mask_is_modulo(head: u64, hop: u64)
    requires
        is_pow2(hop as int),
    ensures
        (head & ((hop - 1) as u64) == 0) == (head % hop == 0),
{
    lemma_is_pow2_agrees(hop as int);
    vstd::arithmetic::power2::is_pow2_equiv(hop as int);
    let k = choose|i: nat| vstd::arithmetic::power::pow(2, i) == hop;
    assert(vstd::arithmetic::power2::pow2(k) == hop);
    vstd::arithmetic::power2::lemma2_to64();
    if k >= 64 {
        if k > 64 {
            vstd::arithmetic::power2::lemma_pow2_strictly_increases(64, k);
        }
        assert(false);
    }
    vstd::bits::lemma_u64_low_bits_mask_is_mod(head, k);
    assert(vstd::bits::low_bits_mask(k) == hop - 1);
}

} // verus!

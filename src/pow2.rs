//! Powers of two, and the divisibility facts that the sorting network rests on.
use vstd::prelude::*;
use vstd::arithmetic::div_mod::lemma_fundamental_div_mod_converse;
use vstd::arithmetic::div_mod::lemma_fundamental_div_mod;

verus! {

/// True when `n` is a power of two (1, 2, 4, ...).
pub open spec fn is_pow2(n: int) -> bool
    decreases n,
{
    if n <= 1 {
        n == 1
    } else {
        n % 2 == 0 && is_pow2(n / 2)
    }
}

/// Halving a power of two of at least 2 gives a power of two.
pub proof fn lemma_pow2_half(h: int)
    requires
        is_pow2(h),
        h >= 2,
    ensures
        is_pow2(h / 2),
        h == 2 * (h / 2),
{
}

/// Doubling a power of two gives a power of two.
pub proof fn lemma_pow2_double(h: int)
    requires
        is_pow2(h),
    ensures
        is_pow2(2 * h),
{
    assert((2 * h) / 2 == h);
}

/// A power of two divides every power of two that is not smaller, and one that
/// is strictly smaller is at most half of it.
pub proof fn lemma_pow2_divides(a: int, b: int)
    requires
        is_pow2(a),
        is_pow2(b),
        a <= b,
    ensures
        b % a == 0,
        a < b ==> 2 * a <= b,
    decreases b,
{
    if a == b {
        lemma_fundamental_div_mod_converse(b, a, 1, 0);
    } else if a == 1 {
        lemma_fundamental_div_mod_converse(b, 1, b, 0);
    } else {
        lemma_pow2_half(a);
        lemma_pow2_half(b);
        lemma_pow2_divides(a / 2, b / 2);
        let k = (b / 2) / (a / 2);
        lemma_fundamental_div_mod(b / 2, a / 2);
        assert(b / 2 == (a / 2) * k);
        assert(b == k * a) by (nonlinear_arith)
            requires
                b == 2 * (b / 2),
                a == 2 * (a / 2),
                b / 2 == (a / 2) * k,
        ;
        lemma_fundamental_div_mod_converse(b, a, k, 0);
        if a / 2 < b / 2 {
            lemma_pow2_half(b / 2);
        }
    }
}

/// The quotient of two powers of two, the larger by the smaller, is a power of two.
pub proof fn lemma_pow2_quotient(a: int, b: int)
    requires
        is_pow2(a),
        is_pow2(b),
        a <= b,
    ensures
        is_pow2(b / a),
        b == a * (b / a),
    decreases b,
{
    lemma_pow2_divides(a, b);
    lemma_fundamental_div_mod(b, a);
    if a == b {
        lemma_fundamental_div_mod_converse(b, a, 1, 0);
    } else if a == 1 {
        lemma_fundamental_div_mod_converse(b, 1, b, 0);
    } else {
        lemma_pow2_half(a);
        lemma_pow2_half(b);
        lemma_pow2_quotient(a / 2, b / 2);
        let k = (b / 2) / (a / 2);
        assert(b == k * a) by (nonlinear_arith)
            requires
                b == 2 * (b / 2),
                a == 2 * (a / 2),
                b / 2 == (a / 2) * k,
        ;
        lemma_fundamental_div_mod_converse(b, a, k, 0);
    }
}

/// A power of two that divides `n` carries its divisibility down to every
/// smaller power of two.
pub proof fn lemma_pow2_divides_multiple(n: int, h: int, k: int)
    requires
        is_pow2(h),
        is_pow2(k),
        k <= h,
        n % h == 0,
    ensures
        n % k == 0,
{
    lemma_pow2_divides(k, h);
    lemma_fundamental_div_mod(n, h);
    lemma_fundamental_div_mod(h, k);
    let a = n / h;
    let b = h / k;
    assert(n == (a * b) * k) by (nonlinear_arith)
        requires
            n == h * a + 0,
            h == k * b + 0,
    ;
    lemma_fundamental_div_mod_converse(n, k, a * b, 0);
}

} // verus!

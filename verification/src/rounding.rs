//! Rounding to the nearest integer.
use vstd::arithmetic::div_mod::lemma_fundamental_div_mod;
use vstd::prelude::*;

verus! {

/// The integer nearest to `n / d`; of two that are equally near, the even one.
pub open spec fn round_half_even(n: nat, d: nat) -> nat {
    let quotient = n / d;
    let rest = n % d;
    if 2 * rest < d || (2 * rest == d && quotient % 2 == 0) {
        quotient
    } else {
        quotient + 1
    }
}

/// Rounding a ratio does not depend on a common factor.
pub proof fn common_factor_does_not_matter(n: nat, d: nat, factor: nat)
    requires
        d > 0,
        factor > 0,
    ensures
        round_half_even(n * factor, d * factor) == round_half_even(n, d),
{
    let q = n / d;
    let r = n % d;
    lemma_fundamental_div_mod(n as int, d as int);
    assert((n * factor) / (d * factor) == q && (n * factor) % (d * factor) == r * factor)
        by (nonlinear_arith)
        requires
            n == d * q + r,
            0 <= r < d,
            factor > 0,
    {
        assert(n * factor == (d * factor) * q + r * factor);
        assert(0 <= r * factor < d * factor);
    }
    assert((2 * r < d) == (2 * (r * factor) < d * factor)) by (nonlinear_arith)
        requires
            factor > 0,
    ;
    assert((2 * r == d) == (2 * (r * factor) == d * factor)) by (nonlinear_arith)
        requires
            factor > 0,
    ;
}

/// A rounded ratio is at most half a unit off, and even where it is just that.
pub proof fn rounding_is_near(n: nat, d: nat)
    requires
        d > 0,
    ensures
        ({
            let r = round_half_even(n, d);
            &&& 2 * n <= (2 * r + 1) * d
            &&& (2 * r - 1) * d <= 2 * n
            &&& 2 * n == (2 * r + 1) * d ==> r % 2 == 0
            &&& 2 * n == (2 * r - 1) * d ==> r % 2 == 0
        }),
{
    let q = n / d;
    let rest = n % d;
    lemma_fundamental_div_mod(n as int, d as int);
    let r = round_half_even(n, d);
    assert(2 * n == 2 * (d * q) + 2 * rest);
    assert((2 * q + 1) * d == 2 * (d * q) + d && (2 * q - 1) * d == 2 * (d * q) - d && (2 * (q + 1)
        + 1) * d == 2 * (d * q) + 3 * d) by (nonlinear_arith);
}

/// A greater ratio is not rounded to less.
pub proof fn rounding_keeps_order(n1: nat, d1: nat, n2: nat, d2: nat)
    requires
        d1 > 0,
        d2 > 0,
        n1 * d2 <= n2 * d1,
    ensures
        round_half_even(n1, d1) <= round_half_even(n2, d2),
{
    rounding_is_near(n1, d1);
    rounding_is_near(n2, d2);
    let r1 = round_half_even(n1, d1);
    let r2 = round_half_even(n2, d2);
    if r1 > r2 {
        let h = 2 * r2 + 1;
        assert(2 * (n1 * d2) >= h * d1 * d2) by (nonlinear_arith)
            requires
                (2 * r1 - 1) * d1 <= 2 * n1,
                2 * r1 - 1 >= h,
                d1 > 0,
                d2 > 0,
        {
            assert((2 * r1 - 1) * d1 >= h * d1);
            assert((2 * n1) * d2 >= (h * d1) * d2);
        }
        assert(2 * (n2 * d1) <= h * d1 * d2) by (nonlinear_arith)
            requires
                2 * n2 <= h * d2,
                d1 > 0,
        {
            assert((2 * n2) * d1 <= (h * d2) * d1);
        }
        assert(2 * n1 == h * d1 && 2 * n2 == h * d2) by (nonlinear_arith)
            requires
                2 * (n1 * d2) == h * d1 * d2,
                2 * (n2 * d1) == h * d1 * d2,
                d1 > 0,
                d2 > 0,
        {
            assert((2 * n1 - h * d1) * d2 == 0);
            assert((2 * n2 - h * d2) * d1 == 0);
        }
        assert(r1 == r2 + 1) by (nonlinear_arith)
            requires
                (2 * r1 - 1) * d1 <= 2 * n1,
                2 * n1 == (2 * r2 + 1) * d1,
                r1 > r2,
                d1 > 0,
        ;
    }
}

/// The integer nearest to `n / d`, ties to even.
pub(crate) fn rounded(n: u128, d: u128) -> (r: u128)
    requires
        0 < d <= 0x8000_0000_0000_0000_0000_0000_0000_0000,
        n < u128::MAX,
    ensures
        r == round_half_even(n as nat, d as nat),
        r <= n / d + 1,
{
    let quotient: u128 = n / d;
    let rest: u128 = n % d;
    assert(n / d <= n) by (nonlinear_arith)
        requires
            d > 0,
    ;
    if rest < d - rest || (rest == d - rest && quotient % 2 == 0) {
        quotient
    } else {
        quotient + 1
    }
}

} // verus!

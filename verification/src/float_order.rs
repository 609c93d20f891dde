//! The order of floating-point numbers, and what keeps it.
use crate::float::{
    binade, in_binade, lemma_binade_exists, lemma_binade_step, lemma_binade_unique,
    lemma_power_next, lemma_power_one, lemma_power_pos, lemma_power_ratio, multiple, nearest, power,
    quotient, scaled,
};
use crate::rounding::{common_factor_does_not_matter, round_half_even, rounding_keeps_order};
use vstd::arithmetic::power2::{lemma_pow2_pos, lemma_pow2_unfold, pow2};
use vstd::prelude::*;

verus! {

/// The order of numbers of one count of significant bits.
pub open spec fn at_most(a: (int, int), b: (int, int)) -> bool {
    a.0 == 0 || (b.0 > 0 && (a.1 < b.1 || (a.1 == b.1 && a.0 <= b.0)))
}

/// The number nearest to a positive ratio has a mantissa of exactly `bits` bits.
pub proof fn lemma_nearest_bits(n: nat, d: nat, bits: nat)
    requires
        n > 0,
        d > 0,
        bits > 1,
    ensures
        pow2((bits - 1) as nat) <= nearest(n, d, bits).0 < pow2(bits),
        ({
            let e = binade(n, d, bits);
            pow2((bits - 1) as nat) <= round_half_even(n * power(-e), d * power(e)) <= pow2(bits)
        }),
{
    lemma_binade_exists(n, d, bits);
    let e = binade(n, d, bits);
    let half = pow2((bits - 1) as nat);
    let top = pow2(bits);
    lemma_pow2_unfold(bits);
    lemma_pow2_pos((bits - 1) as nat);
    lemma_power_pos(e);
    let num = n * power(-e);
    let den = d * power(e);
    assert(den > 0) by (nonlinear_arith)
        requires
            den == d * power(e),
            d > 0,
            power(e) > 0,
    ;
    assert(half <= num / den < top) by (nonlinear_arith)
        requires
            half * den <= num < top * den,
            den > 0,
    ;
}

/// The number nearest to a greater ratio is not less.
pub proof fn lemma_nearest_keeps_order(n1: nat, d1: nat, n2: nat, d2: nat, bits: nat)
    requires
        d1 > 0,
        d2 > 0,
        bits > 1,
        n1 * d2 <= n2 * d1,
    ensures
        at_most(nearest(n1, d1, bits), nearest(n2, d2, bits)),
{
    if n1 > 0 {
        assert(n2 > 0) by (nonlinear_arith)
            requires
                n1 * d2 <= n2 * d1,
                n1 > 0,
                d2 > 0,
                d1 > 0,
        ;
        lemma_nearest_bits(n1, d1, bits);
        lemma_nearest_bits(n2, d2, bits);
        lemma_binade_exists(n1, d1, bits);
        lemma_binade_exists(n2, d2, bits);
        let e1 = binade(n1, d1, bits);
        let e2 = binade(n2, d2, bits);
        let half = pow2((bits - 1) as nat);
        lemma_pow2_pos((bits - 1) as nat);
        lemma_pow2_unfold(bits);
        if e1 > e2 {
            lemma_binade_step(n2, d2, bits, e2, e1);
            let (up, down) = (power(e1), power(-e1));
            lemma_power_pos(e1);
            lemma_power_pos(-e1);
            assert(false) by (nonlinear_arith)
                requires
                    n2 * down < half * (d2 * up),
                    half * (d1 * up) <= n1 * down,
                    n1 * d2 <= n2 * d1,
                    d1 > 0,
                    d2 > 0,
                    up > 0,
                    down > 0,
            {
                assert((n2 * down) * d1 < (half * (d2 * up)) * d1);
                assert((half * (d1 * up)) * d2 <= (n1 * down) * d2);
                assert((half * (d2 * up)) * d1 == (half * (d1 * up)) * d2);
                assert((n1 * d2) * down <= (n2 * d1) * down);
                assert((n1 * down) * d2 == (n1 * d2) * down);
                assert((n2 * down) * d1 == (n2 * d1) * down);
            }
        }
        if e1 == e2 {
            let (up, down) = (power(e1), power(-e1));
            lemma_power_pos(e1);
            lemma_power_pos(-e1);
            assert((n1 * down) * (d2 * up) <= (n2 * down) * (d1 * up) && d1 * up > 0 && d2 * up > 0)
                by (nonlinear_arith)
                requires
                    n1 * d2 <= n2 * d1,
                    up > 0,
                    down > 0,
                    d1 > 0,
                    d2 > 0,
            {
                assert((n1 * down) * (d2 * up) == (n1 * d2) * (down * up));
                assert((n2 * down) * (d1 * up) == (n2 * d1) * (down * up));
                assert(down * up > 0);
            }
            rounding_keeps_order(n1 * down, d1 * up, n2 * down, d2 * up);
        }
    }
}

/// The number nearest to twice a ratio is twice the number nearest to it.
proof fn lemma_nearest_doubled(n: nat, d: nat, bits: nat)
    requires
        n > 0,
        d > 0,
        bits > 1,
    ensures
        nearest(2 * n, d, bits) == scaled(nearest(n, d, bits), 1),
{
    lemma_binade_exists(n, d, bits);
    let e = binade(n, d, bits);
    lemma_power_pos(e);
    lemma_nearest_bits(n, d, bits);
    lemma_pow2_pos((bits - 1) as nat);
    let (num, den) = (n * power(-e), d * power(e));
    let (num2, den2) = ((2 * n) * power(-(e + 1)), d * power(e + 1));
    let half = pow2((bits - 1) as nat);
    let top = pow2(bits);
    if e >= 0 {
        lemma_power_next(d as int, e);
        lemma_power_one(n as int, -e);
        lemma_power_one((2 * n) as int, -(e + 1));
        assert(num2 == 2 * num && den2 == 2 * den);
        assert(half * den2 == 2 * (half * den) && top * den2 == 2 * (top * den))
            by (nonlinear_arith)
            requires
                den2 == 2 * den,
        ;
        assert(den > 0) by (nonlinear_arith)
            requires
                den == d * power(e),
                d > 0,
                power(e) > 0,
        ;
        common_factor_does_not_matter(num, den, 2);
    } else {
        lemma_power_next(n as int, -e - 1);
        lemma_power_one(d as int, e);
        lemma_power_one(d as int, e + 1);
        assert((2 * n) * power(-(e + 1)) == 2 * (n * power(-(e + 1)))) by (nonlinear_arith);
        assert(num2 == num && den2 == den);
    }
    assert(in_binade(2 * n, d, bits, e + 1));
    lemma_binade_unique(2 * n, d, bits, e + 1);
}

/// Whether a number is zero or has a mantissa of exactly `bits` bits.
pub open spec fn has_bits(a: (int, int), bits: nat) -> bool {
    a == (0int, 0int) || pow2((bits - 1) as nat) <= a.0 < pow2(bits)
}

/// A greater dividend does not have a smaller quotient.
pub proof fn lemma_quotient_keeps_order(a: (int, int), b: (int, int), c: (int, int), bits: nat)
    requires
        bits > 1,
        has_bits(a, bits),
        has_bits(b, bits),
        c.0 > 0,
        at_most(a, b),
    ensures
        at_most(quotient(a, c, bits), quotient(b, c, bits)),
        has_bits(quotient(a, c, bits), bits),
        quotient(a, c, bits).0 > 0 <==> a.0 > 0,
{
    lemma_pow2_pos((bits - 1) as nat);
    lemma_pow2_unfold(bits);
    if a.0 > 0 {
        let (m, n, d) = (a.0 as nat, b.0 as nat, c.0 as nat);
        lemma_nearest_bits(m, d, bits);
        lemma_nearest_bits(n, d, bits);
        if a.1 == b.1 {
            assert(m * d <= n * d) by (nonlinear_arith)
                requires
                    m <= n,
            ;
            lemma_nearest_keeps_order(m, d, n, d, bits);
        } else {
            assert(m * d <= (2 * n) * d) by (nonlinear_arith)
                requires
                    m <= 2 * n,
            ;
            lemma_nearest_keeps_order(m, d, 2 * n, d, bits);
            lemma_nearest_doubled(n, d, bits);
        }
    }
}

/// A greater number does not have a smaller multiple.
pub proof fn lemma_multiple_keeps_order(a: (int, int), b: (int, int), factor: nat, bits: nat)
    requires
        bits > 1,
        factor > 0,
        has_bits(a, bits),
        has_bits(b, bits),
        at_most(a, b),
    ensures
        at_most(multiple(a, factor, bits), multiple(b, factor, bits)),
        has_bits(multiple(a, factor, bits), bits),
        multiple(a, factor, bits).0 > 0 <==> a.0 > 0,
{
    lemma_pow2_pos((bits - 1) as nat);
    lemma_pow2_unfold(bits);
    if a.0 > 0 {
        let (m, n) = ((a.0 * factor) as nat, (b.0 * factor) as nat);
        assert(m > 0 && n > 0) by (nonlinear_arith)
            requires
                a.0 > 0,
                b.0 > 0,
                factor > 0,
                m == a.0 * factor,
                n == b.0 * factor,
        ;
        lemma_nearest_bits(m, 1, bits);
        lemma_nearest_bits(n, 1, bits);
        if a.1 == b.1 {
            assert(m * 1 <= n * 1) by (nonlinear_arith)
                requires
                    m == a.0 * factor,
                    n == b.0 * factor,
                    a.0 <= b.0,
                    factor > 0,
            ;
            lemma_nearest_keeps_order(m, 1, n, 1, bits);
        } else {
            assert(m * 1 <= (2 * n) * 1) by (nonlinear_arith)
                requires
                    m == a.0 * factor,
                    n == b.0 * factor,
                    a.0 <= 2 * b.0,
                    factor > 0,
            ;
            lemma_nearest_keeps_order(m, 1, 2 * n, 1, bits);
            lemma_nearest_doubled(n, 1, bits);
        }
    } else {
        assert(0 * factor == 0);
    }
}

/// A number that is not less has a value that is not less.
pub proof fn lemma_values_keep_order(a: (int, int), b: (int, int), bits: nat)
    requires
        bits > 1,
        has_bits(a, bits),
        has_bits(b, bits),
        at_most(a, b),
    ensures
        (a.0 * power(a.1)) * power(-b.1) <= (b.0 * power(b.1)) * power(-a.1),
{
    let (m, n) = (a.0, b.0);
    let (up, down) = (power(a.1), power(-a.1));
    let (higher, lower) = (power(b.1), power(-b.1));
    lemma_pow2_pos((bits - 1) as nat);
    lemma_pow2_unfold(bits);
    lemma_power_pos(a.1);
    lemma_power_pos(-a.1);
    lemma_power_pos(b.1);
    lemma_power_pos(-b.1);
    if m == 0 {
        assert((m * up) * lower <= (n * higher) * down) by (nonlinear_arith)
            requires
                m == 0,
                n >= 0,
                higher > 0,
                down > 0,
        ;
    } else if a.1 == b.1 {
        assert((m * up) * down <= (n * up) * down) by (nonlinear_arith)
            requires
                m <= n,
                up > 0,
                down > 0,
        ;
    } else {
        lemma_power_ratio(a.1, b.1);
        lemma_pow2_unfold((b.1 - a.1) as nat);
        lemma_pow2_pos((b.1 - a.1 - 1) as nat);
        let k = pow2((b.1 - a.1) as nat);
        assert((m * up) * lower <= (n * higher) * down) by (nonlinear_arith)
            requires
                0 <= m <= 2 * n,
                k >= 2,
                higher * down == k * (up * lower),
                up > 0,
                lower > 0,
        {
            assert((n * higher) * down == n * (higher * down));
            assert((m * up) * lower == m * (up * lower));
            assert(m * (up * lower) <= (2 * n) * (up * lower));
            assert((2 * n) * (up * lower) <= (k * n) * (up * lower));
            assert((k * n) * (up * lower) == n * (k * (up * lower)));
        }
    }
}

} // verus!

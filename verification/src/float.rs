//! Floating-point numbers as integers: a mantissa times a power of two.
use crate::rounding::{round_half_even, rounded};
use vstd::arithmetic::power2::{
    lemma2_to64, lemma2_to64_rest, lemma_pow2_adds, lemma_pow2_pos, lemma_pow2_strictly_increases,
    lemma_pow2_unfold, pow2,
};
use vstd::prelude::*;

verus! {

/// The number `mantissa * 2^exponent`.
#[derive(Clone, Copy, Debug, PartialEq, Eq, Structural)]
pub struct Float {
    pub mantissa: u64,
    pub exponent: i32,
}

/// `2^e` where `e` is positive, else 1.
pub open spec fn power(e: int) -> nat {
    if e > 0 {
        pow2(e as nat)
    } else {
        1
    }
}

/// Whether `n / d` lies among the numbers whose mantissas have exactly `bits` bits
/// when the exponent is `e`.
pub open spec fn in_binade(n: nat, d: nat, bits: nat, e: int) -> bool {
    pow2((bits - 1) as nat) * (d * power(e)) <= n * power(-e) < pow2(bits) * (d * power(e))
}

/// The exponent of the numbers of `bits` significant bits around `n / d`.
pub open spec fn binade(n: nat, d: nat, bits: nat) -> int {
    choose|e: int| in_binade(n, d, bits, e)
}

/// The number of `bits` significant bits nearest to `n / d`; of two that are equally
/// near, the one whose mantissa is even.
pub open spec fn nearest(n: nat, d: nat, bits: nat) -> (int, int) {
    if n == 0 {
        (0, 0)
    } else {
        let e = binade(n, d, bits);
        let m = round_half_even(n * power(-e), d * power(e));
        if m == pow2(bits) {
            (pow2((bits - 1) as nat) as int, e + 1)
        } else {
            (m as int, e)
        }
    }
}

impl Float {
    /// Whether this is zero or a number whose mantissa has exactly `bits` bits.
    pub open spec fn has_bits(self, bits: nat) -> bool {
        ||| self.mantissa == 0 && self.exponent == 0
        ||| pow2((bits - 1) as nat) <= self.mantissa < pow2(bits)
    }

    /// Mantissa and exponent as integers.
    pub open spec fn parts(self) -> (int, int) {
        (self.mantissa as int, self.exponent as int)
    }
}

/// A number times a power of two.
pub open spec fn scaled(parts: (int, int), e: int) -> (int, int) {
    if parts.0 == 0 {
        (0, 0)
    } else {
        (parts.0, parts.1 + e)
    }
}

/// Two exponents that fit one ratio are the same.
pub proof fn lemma_binade_unique(n: nat, d: nat, bits: nat, e: int)
    requires
        d > 0,
        bits > 0,
        in_binade(n, d, bits, e),
    ensures
        binade(n, d, bits) == e,
{
    let f = binade(n, d, bits);
    assert(in_binade(n, d, bits, f));
    if e < f {
        lemma_binade_step(n, d, bits, e, f);
    } else if f < e {
        lemma_binade_step(n, d, bits, f, e);
    }
}

/// A ratio below `2^bits * 2^e` is below `2^(bits - 1) * 2^f` for any greater `f`.
pub proof fn lemma_binade_step(n: nat, d: nat, bits: nat, e: int, f: int)
    requires
        d > 0,
        bits > 0,
        e < f,
        n * power(-e) < pow2(bits) * (d * power(e)),
    ensures
        n * power(-f) < pow2((bits - 1) as nat) * (d * power(f)),
{
    let half = pow2((bits - 1) as nat);
    lemma_pow2_unfold(bits);
    lemma_power_pos(e);
    lemma_power_pos(f);
    lemma_power_pos(-e);
    lemma_power_pos(-f);
    lemma_power_ratio(e, f);
    let k = pow2((f - e) as nat);
    lemma_pow2_unfold((f - e) as nat);
    lemma_pow2_pos((f - e - 1) as nat);
    let (a, b, c, g) = (power(-e), power(e), power(-f), power(f));
    assert(g * a == k * (b * c));
    assert(n * c < half * (d * g)) by (nonlinear_arith)
        requires
            n * a < 2 * half * (d * b),
            g * a == k * (b * c),
            k >= 2,
            a > 0,
            b > 0,
            c > 0,
            g > 0,
            d > 0,
            half >= 0,
            n >= 0,
    {
        // n a c < 2 half d b c <= half d k b c == half d g a
        assert(n * a * c < 2 * half * (d * b) * c);
        assert(2 * half * (d * b) * c <= k * half * (d * b) * c);
        assert(k * half * (d * b) * c == half * d * (k * (b * c)));
        assert(half * d * (g * a) == (half * (d * g)) * a);
        assert((n * c) * a < (half * (d * g)) * a);
    }
}

pub proof fn lemma_power_pos(e: int)
    ensures
        power(e) > 0,
{
    if e > 0 {
        lemma_pow2_pos(e as nat);
    }
}

/// `2^f / 2^e`, over numerators and denominators.
pub proof fn lemma_power_ratio(e: int, f: int)
    requires
        e <= f,
    ensures
        power(f) * power(-e) == pow2((f - e) as nat) * (power(e) * power(-f)),
{
    lemma2_to64();
    let k = pow2((f - e) as nat);
    if e >= 0 {
        lemma_pow2_adds((f - e) as nat, e as nat);
    } else if f <= 0 {
        lemma_pow2_adds((f - e) as nat, (-f) as nat);
    } else {
        lemma_pow2_adds(f as nat, (-e) as nat);
    }
    let (a, b, c, g) = (power(-e), power(e), power(-f), power(f));
    assert(g * a == k * (b * c)) by (nonlinear_arith)
        requires
            (c == 1 && a == 1 && g == k * b) || (g == 1 && b == 1 && a == k * c) || (b == 1 && c
                == 1 && k == g * a),
    ;
}

/// Twice a power of two is the next one.
pub proof fn lemma_power_next(n: int, e: int)
    requires
        e >= 0,
    ensures
        n * power(e + 1) == 2 * (n * power(e)),
        power(e + 1) == 2 * power(e),
        power(-e) == 1,
{
    lemma2_to64();
    lemma_pow2_unfold((e + 1) as nat);
    assert(n * (2 * power(e)) == 2 * (n * power(e))) by (nonlinear_arith);
}

/// A power of two that is at most `2^k` has an exponent that is at most `k`.
pub proof fn lemma_power_at_most(e: int, k: nat)
    requires
        power(e) <= pow2(k),
    ensures
        e <= k,
{
    if e > k {
        lemma_pow2_strictly_increases(k, e as nat);
    }
}

/// A power of two without a positive exponent changes nothing.
pub proof fn lemma_power_one(n: int, e: int)
    requires
        e <= 0,
    ensures
        n * power(e) == n,
{
    assert(n * 1 == n) by (nonlinear_arith);
}

/// Every positive ratio has an exponent.
pub proof fn lemma_binade_exists(n: nat, d: nat, bits: nat)
    requires
        n > 0,
        d > 0,
        bits > 0,
    ensures
        in_binade(n, d, bits, binade(n, d, bits)),
{
    lemma_power_one(n as int, 0);
    lemma_power_one(d as int, 0);
    lemma_pow2_unfold(bits);
    if pow2((bits - 1) as nat) * d > n {
        lemma_binade_below(n, d, bits, 0);
    } else {
        lemma_binade_above(n, d, bits, 0);
    }
}

/// A ratio that reaches an exponent has one from there up.
proof fn lemma_binade_above(n: nat, d: nat, bits: nat, e: int)
    requires
        n > 0,
        d > 0,
        bits > 0,
        e >= 0,
        pow2((bits - 1) as nat) * (d * power(e)) <= n,
    ensures
        exists|f: int| in_binade(n, d, bits, f),
    decreases n - d * power(e),
{
    lemma_power_one(n as int, -e);
    lemma_pow2_unfold(bits);
    lemma_pow2_pos((bits - 1) as nat);
    lemma_power_pos(e);
    let half = pow2((bits - 1) as nat);
    let x = d * power(e);
    if n < pow2(bits) * x {
        assert(in_binade(n, d, bits, e));
    } else {
        lemma_power_next(d as int, e);
        assert(half * (2 * x) == pow2(bits) * x && x > 0 && 2 * x <= half * (2 * x))
            by (nonlinear_arith)
            requires
                pow2(bits) == 2 * half,
                half >= 1,
                x == d * power(e),
                d > 0,
                power(e) > 0,
        ;
        lemma_binade_above(n, d, bits, e + 1);
    }
}

/// A ratio that does not reach an exponent has one below it.
proof fn lemma_binade_below(n: nat, d: nat, bits: nat, e: int)
    requires
        n > 0,
        d > 0,
        bits > 0,
        e <= 0,
        n * power(-e) < pow2((bits - 1) as nat) * d,
    ensures
        exists|f: int| in_binade(n, d, bits, f),
    decreases pow2((bits - 1) as nat) * d - n * power(-e),
{
    lemma_power_next(n as int, -e);
    lemma_power_one(d as int, e - 1);
    lemma_power_pos(-e);
    lemma_pow2_unfold(bits);
    let half = pow2((bits - 1) as nat);
    assert(pow2(bits) * d == 2 * (half * d)) by (nonlinear_arith)
        requires
            pow2(bits) == 2 * half,
    ;
    assert(n * power(-e) > 0) by (nonlinear_arith)
        requires
            n > 0,
            power(-e) > 0,
    ;
    if n * power(1 - e) >= half * d {
        assert(in_binade(n, d, bits, e - 1));
    } else {
        lemma_binade_below(n, d, bits, e - 1);
    }
}

/// The number nearest to a positive ratio is positive.
pub proof fn lemma_nearest_positive(n: nat, d: nat, bits: nat)
    requires
        n > 0,
        d > 0,
        bits > 0,
    ensures
        nearest(n, d, bits).0 > 0,
{
    lemma_binade_exists(n, d, bits);
    let e = binade(n, d, bits);
    let half = pow2((bits - 1) as nat);
    lemma_pow2_pos((bits - 1) as nat);
    lemma_power_pos(e);
    let num = n * power(-e);
    let den = d * power(e);
    assert(den > 0 && num / den >= 1) by (nonlinear_arith)
        requires
            half * den <= num,
            half >= 1,
            den == d * power(e),
            d > 0,
            power(e) > 0,
    ;
}

/// The binary32 number nearest to the ratio of a number to itself is one.
pub proof fn lemma_nearest_one(m: nat)
    requires
        m > 0,
    ensures
        nearest(m, m, 24) == (0x80_0000int, -23int),
{
    lemma2_to64();
    lemma_power_one(m as int, -23);
    assert(power(23) == 0x80_0000);
    assert(in_binade(m, m, 24, -23)) by {
        assert(0x80_0000 * m <= m * 0x80_0000 < 0x100_0000 * m);
    }
    lemma_binade_unique(m, m, 24, -23);
    let n = m * power(23);
    assert(n / m == 0x80_0000 && n % m == 0) by (nonlinear_arith)
        requires
            n == m * 0x80_0000,
            m > 0,
    ;
}

/// The binary32 number nearest to a hundred times `2^23`.
pub proof fn lemma_nearest_hundred()
    ensures
        nearest(838_860_800, 1, 24) == (13_107_200int, 6int),
{
    lemma2_to64();
    let (low, high, up, down) = (pow2(23), pow2(24), power(6), power(-6));
    assert(low * (1 * up) <= 838_860_800 * down < high * (1 * up)) by (nonlinear_arith)
        requires
            low == 0x80_0000,
            high == 0x100_0000,
            up == 64,
            down == 1,
    ;
    assert(in_binade(838_860_800, 1, 24, 6));
    lemma_binade_unique(838_860_800, 1, 24, 6);
}

/// The number of `bits` significant bits nearest to `n / d`, with `top == 2^bits`.
fn nearest_to(n: u64, d: u64, bits: u32, top: u64) -> (r: Float)
    requires
        d > 0,
        1 < bits <= 53,
        top == pow2(bits as nat),
    ensures
        r.parts() == nearest(n as nat, d as nat, bits as nat),
        r.has_bits(bits as nat),
        r.mantissa > 0 <==> n > 0,
        r.exponent < 0 ==> power(-r.exponent) <= top * d,
        r.exponent > 0 ==> top * power(r.exponent as int) <= 4 * n,
        -120 <= r.exponent <= 65,
{
    if n == 0 {
        return Float { mantissa: 0, exponent: 0 };
    }
    proof {
        lemma2_to64();
        lemma2_to64_rest();
        lemma_pow2_unfold(bits as nat);
        if bits < 53 {
            lemma_pow2_strictly_increases(bits as nat, 53);
        }
        lemma_pow2_strictly_increases(0, bits as nat);
    }
    let half: u128 = (top / 2) as u128;
    let wide: u128 = top as u128;
    let mut num: u128 = n as u128;
    let mut den: u128 = d as u128;
    let mut e: i32 = 0;
    assert(wide * d <= 0x20_0000_0000_0000 * 0xffff_ffff_ffff_ffff) by (nonlinear_arith)
        requires
            wide <= 0x20_0000_0000_0000,
            d <= 0xffff_ffff_ffff_ffff,
    ;
    proof {
        lemma_power_one(d as int, 0);
    }
    while num >= wide * den
        invariant
            0 < num == n,
            0 < den == d * power(e as int),
            d > 0,
            wide >= 2,
            0 <= e <= 64,
            den >= power(e as int),
            wide * den <= 0x20_0000_0000_0000 * 0xffff_ffff_ffff_ffff,
            e > 0 ==> half * den <= num,
            wide == 2 * half,
            half >= 1,
        decreases 64 - e,
    {
        proof {
            lemma_power_next(d as int, e as int);
            lemma2_to64();
            if e == 64 {
                assert(false) by (nonlinear_arith)
                    requires
                        num >= wide * den,
                        num <= 0xffff_ffff_ffff_ffff,
                        wide >= 2,
                        den >= 0x1_0000_0000_0000_0000,
                ;
            }
            assert(half * (2 * den) == wide * den) by (nonlinear_arith)
                requires
                    wide == 2 * half,
            ;
            assert(wide * (2 * den) <= 2 * num && 2 * den <= num) by (nonlinear_arith)
                requires
                    num >= wide * den,
                    wide >= 2,
            ;
        }
        den = 2 * den;
        e = e + 1;
    }
    proof {
        lemma_power_one(n as int, -e);
        if e == 0 {
            lemma_power_one(d as int, 0);
        }
        assert(2 * (half * den) == wide * den) by (nonlinear_arith)
            requires
                wide == 2 * half,
        ;
    }
    while num < half * den
        invariant
            0 < num == n * power(-e),
            0 < den == d * power(e as int),
            n > 0,
            d > 0,
            wide == 2 * half,
            1 <= half <= 0x10_0000_0000_0000,
            -117 <= e <= 64,
            num < wide * den,
            half * den <= 0x10_0000_0000_0000 * 0xffff_ffff_ffff_ffff,
            e > 0 ==> half * den <= num && num == n,
            e <= 0 ==> den == d,
            num >= power(-e),
            e < 0 ==> power(-e) <= wide * d,
        decreases 117 + e,
    {
        proof {
            lemma_power_next(n as int, -e);
            if e == -117 {
                lemma2_to64();
                lemma2_to64_rest();
                lemma_pow2_adds(64, 53);
                assert(false);
            }
            lemma_power_one(d as int, e - 1);
            assert(2 * (half * den) == wide * den) by (nonlinear_arith)
                requires
                    wide == 2 * half,
            ;
        }
        num = 2 * num;
        e = e - 1;
    }
    proof {
        assert(in_binade(n as nat, d as nat, bits as nat, e as int));
        lemma_binade_unique(n as nat, d as nat, bits as nat, e as int);
    }
    assert(den <= half * den) by (nonlinear_arith)
        requires
            half >= 1,
    ;
    let m: u128 = rounded(num, den);
    assert(half <= m <= wide) by {
        assert(half <= num / den < wide) by (nonlinear_arith)
            requires
                half * den <= num < wide * den,
                den > 0,
        ;
    }
    proof {
        if e >= 0 {
            lemma_power_next(1, e as int);
            lemma_power_next(half as int, e as int);
            assert(half * power(e as int) <= half * den) by (nonlinear_arith)
                requires
                    den == d * power(e as int),
                    d >= 1,
                    half >= 1,
                    power(e as int) >= 0,
            ;
            assert(wide * power(e as int) == 2 * (half * power(e as int)) && wide * power(e + 1)
                == 4 * (half * power(e as int))) by (nonlinear_arith)
                requires
                    wide == 2 * half,
                    power(e + 1) == 2 * power(e as int),
            ;
        } else {
            lemma_power_next(1, -e - 1);
            lemma_power_pos(-e - 1);
        }
    }
    if m == wide {
        Float { mantissa: half as u64, exponent: e + 1 }
    } else {
        Float { mantissa: m as u64, exponent: e }
    }
}

/// The binary32 number nearest to an integer.
pub open spec fn single_of(n: nat) -> (int, int) {
    nearest(n, 1, 24)
}

/// The binary64 number nearest to an integer.
pub open spec fn double_of(n: nat) -> (int, int) {
    nearest(n, 1, 53)
}

/// The number of `bits` significant bits nearest to the quotient of two numbers.
pub open spec fn quotient(a: (int, int), b: (int, int), bits: nat) -> (int, int) {
    scaled(nearest(a.0 as nat, b.0 as nat, bits), a.1 - b.1)
}

/// The number of `bits` significant bits nearest to a number times an integer.
pub open spec fn multiple(a: (int, int), factor: nat, bits: nat) -> (int, int) {
    scaled(nearest((a.0 * factor) as nat, 1, bits), a.1)
}

/// The integer part of a number, and `u64::MAX` for what is greater than that.
pub open spec fn whole(a: (int, int)) -> nat {
    let n = (a.0 * power(a.1)) as nat / power(-a.1);
    if n > u64::MAX {
        u64::MAX as nat
    } else {
        n
    }
}

/// The bits of a binary64 number that is not negative: eleven bits of exponent and
/// fifty-two bits of mantissa.
pub open spec fn double_code(parts: (int, int)) -> int {
    if parts.0 == 0 {
        0
    } else {
        (parts.1 + 1075) * 0x10_0000_0000_0000 + (parts.0 - 0x10_0000_0000_0000)
    }
}

/// The bits of a binary32 number that is not negative: eight bits of exponent and
/// twenty-three bits of mantissa.
pub open spec fn single_code(parts: (int, int)) -> int {
    if parts.0 == 0 {
        0
    } else {
        (parts.1 + 150) * 0x80_0000 + (parts.0 - 0x80_0000)
    }
}

/// A binary64 number by its bits.
#[derive(Clone, Copy, Debug, PartialEq, Eq, Structural)]
pub enum Binary64 {
    NotANumber,
    Infinite { negative: bool },
    Finite { negative: bool, value: Float },
}

/// What the bits of a binary64 number stand for: a sign, eleven bits of exponent and
/// fifty-two bits of mantissa.
pub open spec fn decoded(bits: u64) -> Binary64 {
    let negative = bits >= 0x8000_0000_0000_0000;
    let field = (bits / 0x10_0000_0000_0000) % 2048;
    let fraction = bits % 0x10_0000_0000_0000;
    if field == 2047 {
        if fraction == 0 {
            Binary64::Infinite { negative }
        } else {
            Binary64::NotANumber
        }
    } else if field == 0 {
        Binary64::Finite {
            negative,
            value: Float {
                mantissa: fraction,
                exponent: if fraction == 0 {
                    0
                } else {
                    -1074i32
                },
            },
        }
    } else {
        Binary64::Finite {
            negative,
            value: Float {
                mantissa: (fraction + 0x10_0000_0000_0000) as u64,
                exponent: (field - 1075) as i32,
            },
        }
    }
}

impl Binary64 {
    /// What the bits of a binary64 number stand for.
    pub fn from_bits(bits: u64) -> (r: Binary64)
        ensures
            r == decoded(bits),
    {
        let negative = bits >= 0x8000_0000_0000_0000;
        let field: u64 = (bits / 0x10_0000_0000_0000) % 2048;
        let fraction: u64 = bits % 0x10_0000_0000_0000;
        if field == 2047 {
            if fraction == 0 {
                Binary64::Infinite { negative }
            } else {
                Binary64::NotANumber
            }
        } else if field == 0 {
            let exponent: i32 = if fraction == 0 {
                0
            } else {
                -1074
            };
            Binary64::Finite { negative, value: Float { mantissa: fraction, exponent } }
        } else {
            let exponent: i32 = field as i32 - 1075;
            Binary64::Finite {
                negative,
                value: Float { mantissa: fraction + 0x10_0000_0000_0000, exponent },
            }
        }
    }
}

/// `2^k`.
pub(crate) fn power_of_two(k: u32) -> (r: u128)
    requires
        k <= 126,
    ensures
        r == pow2(k as nat),
{
    let mut r: u128 = 1;
    let mut i: u32 = 0;
    proof {
        lemma2_to64();
        lemma2_to64_rest();
        lemma_pow2_adds(64, 62);
    }
    while i < k
        invariant
            i <= k <= 126,
            r == pow2(i as nat),
            pow2(126) == 0x1_0000_0000_0000_0000 * 0x4000_0000_0000_0000,
        decreases k - i,
    {
        proof {
            lemma_pow2_unfold((i + 1) as nat);
            if i + 1 < 126 {
                lemma_pow2_strictly_increases((i + 1) as nat, 126);
            }
        }
        r = 2 * r;
        i = i + 1;
    }
    r
}

impl Float {
    /// Zero.
    pub fn zero() -> (r: Float)
        ensures
            r.parts() == (0int, 0int),
    {
        Float { mantissa: 0, exponent: 0 }
    }

    /// The binary32 number nearest to an integer.
    pub fn single(n: u64) -> (r: Float)
        ensures
            r.parts() == single_of(n as nat),
            r.has_bits(24),
            -24 <= r.exponent <= 42,
            r.mantissa > 0 <==> n > 0,
    {
        proof {
            lemma2_to64();
            lemma2_to64_rest();
        }
        let r = nearest_to(n, 1, 24, 0x100_0000);
        proof {
            if r.exponent < 0 {
                lemma_power_at_most(-r.exponent, 24);
            } else {
                lemma_power_at_most(r.exponent as int, 42);
            }
        }
        r
    }

    /// The binary64 number nearest to an integer.
    pub fn double(n: u64) -> (r: Float)
        ensures
            r.parts() == double_of(n as nat),
            r.has_bits(53),
            -53 <= r.exponent <= 13,
            r.mantissa > 0 <==> n > 0,
    {
        proof {
            lemma2_to64();
            lemma2_to64_rest();
        }
        let r = nearest_to(n, 1, 53, 0x20_0000_0000_0000);
        proof {
            if r.exponent < 0 {
                lemma_power_at_most(-r.exponent, 53);
            } else {
                lemma_power_at_most(r.exponent as int, 13);
            }
        }
        r
    }

    /// This number times a power of two.
    fn scaled_by(self, e: i32) -> (r: Float)
        requires
            -10_000 <= self.exponent + e <= 10_000,
        ensures
            r.parts() == scaled(self.parts(), e as int),
            r.mantissa == self.mantissa,
            self.mantissa > 0 ==> r.exponent == self.exponent + e,
    {
        if self.mantissa == 0 {
            Float::zero()
        } else {
            Float { mantissa: self.mantissa, exponent: self.exponent + e }
        }
    }

    /// The binary32 number nearest to the quotient of two binary32 numbers.
    pub fn single_quotient(self, divisor: Float) -> (r: Float)
        requires
            self.has_bits(24),
            divisor.has_bits(24),
            divisor.mantissa > 0,
            -2_000 <= self.exponent <= 2_000,
            -2_000 <= divisor.exponent <= 2_000,
        ensures
            r.parts() == quotient(self.parts(), divisor.parts(), 24),
            r.has_bits(24),
            r.mantissa > 0 <==> self.mantissa > 0,
            r.mantissa > 0 ==> -48 <= r.exponent - (self.exponent - divisor.exponent) <= 2,
    {
        proof {
            lemma2_to64();
            lemma2_to64_rest();
        }
        let r = nearest_to(self.mantissa, divisor.mantissa, 24, 0x100_0000);
        proof {
            if r.exponent < 0 {
                lemma_power_at_most(-r.exponent, 48);
            } else {
                lemma_power_at_most(r.exponent as int, 2);
            }
        }
        r.scaled_by(self.exponent - divisor.exponent)
    }

    /// The binary64 number nearest to the quotient of two binary64 numbers.
    pub fn double_quotient(self, divisor: Float) -> (r: Float)
        requires
            self.has_bits(53),
            divisor.has_bits(53),
            divisor.mantissa > 0,
            -2_000 <= self.exponent <= 2_000,
            -2_000 <= divisor.exponent <= 2_000,
        ensures
            r.parts() == quotient(self.parts(), divisor.parts(), 53),
            r.has_bits(53),
            r.mantissa > 0 <==> self.mantissa > 0,
            r.mantissa > 0 ==> -106 <= r.exponent - (self.exponent - divisor.exponent) <= 2,
    {
        proof {
            lemma2_to64();
            lemma2_to64_rest();
            lemma_pow2_adds(53, 53);
        }
        let r = nearest_to(self.mantissa, divisor.mantissa, 53, 0x20_0000_0000_0000);
        proof {
            if r.exponent < 0 {
                lemma_power_at_most(-r.exponent, 106);
            } else {
                lemma_power_at_most(r.exponent as int, 2);
            }
        }
        r.scaled_by(self.exponent - divisor.exponent)
    }

    /// The binary32 number nearest to a hundred times this one.
    pub fn single_hundredfold(self) -> (r: Float)
        requires
            self.has_bits(24),
            -2_000 <= self.exponent <= 2_000,
        ensures
            r.parts() == multiple(self.parts(), 100, 24),
            r.has_bits(24),
            r.mantissa > 0 <==> self.mantissa > 0,
            r.mantissa > 0 ==> -24 <= r.exponent - self.exponent <= 9,
    {
        proof {
            lemma2_to64();
            lemma2_to64_rest();
        }
        let r = nearest_to(self.mantissa * 100, 1, 24, 0x100_0000);
        proof {
            if r.exponent < 0 {
                lemma_power_at_most(-r.exponent, 24);
            } else {
                lemma_power_at_most(r.exponent as int, 9);
            }
        }
        r.scaled_by(self.exponent)
    }

    /// The integer part, and `u64::MAX` for what is greater than that.
    pub fn to_u64(self) -> (r: u64)
        requires
            -10_000 <= self.exponent <= 10_000,
        ensures
            r == whole(self.parts()),
    {
        let ghost m = self.mantissa as int;
        let ghost e = self.exponent as int;
        proof {
            lemma2_to64();
            lemma_power_pos(e);
            lemma_power_pos(-e);
            if e >= 0 {
                let n = (m * power(e)) as nat;
                assert(n / power(-e) == n) by (nonlinear_arith)
                    requires
                        power(-e) == 1,
                ;
            }
        }
        if self.exponent >= 64 {
            if self.mantissa == 0 {
                assert(m * power(e) == 0) by (nonlinear_arith)
                    requires
                        m == 0,
                ;
                return 0;
            }
            proof {
                if e > 64 {
                    lemma_pow2_strictly_increases(64, e as nat);
                }
                assert(m * power(e) >= power(e) >= 0x1_0000_0000_0000_0000) by (nonlinear_arith)
                    requires
                        m >= 1,
                        power(e) >= 0x1_0000_0000_0000_0000,
                ;
            }
            u64::MAX
        } else if self.exponent >= 0 {
            let factor: u128 = power_of_two(self.exponent as u32);
            proof {
                if e < 64 {
                    lemma_pow2_strictly_increases(e as nat, 64);
                }
                assert(m * factor <= 0xffff_ffff_ffff_ffff * 0x1_0000_0000_0000_0000)
                    by (nonlinear_arith)
                    requires
                        0 <= m <= 0xffff_ffff_ffff_ffff,
                        0 <= factor <= 0x1_0000_0000_0000_0000,
                ;
            }
            let n: u128 = self.mantissa as u128 * factor;
            if n > 0xffff_ffff_ffff_ffff {
                u64::MAX
            } else {
                n as u64
            }
        } else if self.exponent > -64 {
            let divisor: u128 = power_of_two((-self.exponent) as u32);
            proof {
                lemma_power_one(m, e);
                assert(m as nat / divisor as nat <= m) by (nonlinear_arith)
                    requires
                        divisor > 0,
                        m >= 0,
                ;
            }
            (self.mantissa as u128 / divisor) as u64
        } else {
            proof {
                lemma_power_one(m, e);
                if e < -64 {
                    lemma_pow2_strictly_increases(64, (-e) as nat);
                }
                assert(m as nat / power(-e) == 0) by (nonlinear_arith)
                    requires
                        0 <= m < power(-e),
                ;
            }
            0
        }
    }

    /// The bits of this number as a binary64 number.
    pub fn double_bits(self) -> (bits: u64)
        requires
            self.has_bits(53),
            -1074 <= self.exponent <= 971,
        ensures
            bits == double_code(self.parts()),
            decoded(bits) == (Binary64::Finite { negative: false, value: self }),
    {
        proof {
            lemma2_to64();
            lemma2_to64_rest();
        }
        if self.mantissa == 0 {
            0
        } else {
            let field: u64 = (self.exponent + 1075) as u64;
            let fraction: u64 = self.mantissa - 0x10_0000_0000_0000;
            let bits: u64 = field * 0x10_0000_0000_0000 + fraction;
            assert(bits / 0x10_0000_0000_0000 == field);
            assert(field % 2048 == field);
            bits
        }
    }

    /// The bits of this number as a binary32 number.
    pub fn single_bits(self) -> (bits: u32)
        requires
            self.has_bits(24),
            -149 <= self.exponent <= 104,
        ensures
            bits == single_code(self.parts()),
            bits < 0x7f80_0000,
            bits > 0 <==> self.mantissa > 0,
    {
        proof {
            lemma2_to64();
        }
        if self.mantissa == 0 {
            0
        } else {
            (self.exponent + 150) as u32 * 0x80_0000 + (self.mantissa - 0x80_0000) as u32
        }
    }
}

} // verus!

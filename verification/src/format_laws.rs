//! What the texts of sizes, speeds and remaining times tell apart, and what they share.
use crate::float::{
    decoded, double_code, double_of, lemma_power_at_most, lemma_power_pos, power, Binary64, Float,
};
use crate::float_order::lemma_nearest_bits;
use crate::format::{
    eta_text, fixed, size_text, small_integers_are_doubles, speed_text, GIGA, KILO, MEGA,
};
use crate::rounding::{common_factor_does_not_matter, round_half_even};
use crate::text::{decimal, digit, lemma_decimal_injective, power_of_ten};
use vstd::arithmetic::power2::{lemma2_to64, lemma2_to64_rest};
use vstd::prelude::*;

verus! {

// ---------------------------------------------------------------------------
// Remaining times
// ---------------------------------------------------------------------------

/// Whether a character is none that decimals are made of.
spec fn is_no_digit(c: char) -> bool {
    forall|d: nat| c != #[trigger] digit(d)
}

/// A decimal is made of digits.
proof fn lemma_decimal_digits(n: nat, i: int)
    requires
        0 <= i < decimal(n).len(),
    ensures
        !is_no_digit(decimal(n)[i]),
    decreases n,
{
    if n < 10 {
        assert(decimal(n)[i] == digit(n));
    } else if i == decimal(n).len() - 1 {
        assert(decimal(n)[i] == digit(n % 10));
    } else {
        lemma_decimal_digits(n / 10, i);
    }
}

/// A text that begins with a decimal, and goes on otherwise, fixes both.
proof fn lemma_decimal_first(a: nat, s: Seq<char>, b: nat, t: Seq<char>)
    requires
        s.len() > 0,
        t.len() > 0,
        is_no_digit(s[0]),
        is_no_digit(t[0]),
        decimal(a) + s == decimal(b) + t,
    ensures
        a == b,
        s == t,
{
    let (x, y) = (decimal(a), decimal(b));
    let whole = x + s;
    if x.len() < y.len() {
        lemma_decimal_digits(b, x.len() as int);
        assert(whole[x.len() as int] == s[0]);
        assert((y + t)[x.len() as int] == y[x.len() as int]);
    }
    if y.len() < x.len() {
        lemma_decimal_digits(a, y.len() as int);
        assert((y + t)[y.len() as int] == t[0]);
        assert(whole[y.len() as int] == x[y.len() as int]);
    }
    let n = x.len() as int;
    assert(x =~= whole.subrange(0, n) && y =~= (y + t).subrange(0, n));
    assert(s =~= whole.subrange(n, whole.len() as int));
    assert(t =~= (y + t).subrange(n, whole.len() as int));
    lemma_decimal_injective(a, b);
}

/// What follows `ETA: `: a number, and what goes on behind it.
proof fn lemma_eta(secs: u64) -> (parts: (nat, Seq<char>))
    ensures
        eta_text(Some(secs)) == "ETA: "@ + (decimal(parts.0) + parts.1),
        parts.1.len() > 0,
        is_no_digit(parts.1[0]),
        parts.0 == if secs >= 60 {
            (secs / 60) as nat
        } else {
            secs as nat
        },
        parts.1 == if secs >= 60 {
            "m "@ + decimal((secs % 60) as nat) + "s"@
        } else {
            "s"@
        },
{
    reveal_strlit("m ");
    reveal_strlit("s");
    let parts = if secs >= 60 {
        ((secs / 60) as nat, "m "@ + decimal((secs % 60) as nat) + "s"@)
    } else {
        (secs as nat, "s"@)
    };
    assert(eta_text(Some(secs)) =~= "ETA: "@ + (decimal(parts.0) + parts.1));
    parts
}

/// Different remaining times read differently, and none like one that is not known.
pub proof fn remaining_times_are_told_apart(a: Option<u64>, b: Option<u64>)
    ensures
        eta_text(a) == eta_text(b) <==> a == b,
{
    reveal_strlit("ETA: ");
    reveal_strlit("ETA: Calculating...");
    reveal_strlit("m ");
    reveal_strlit("s");
    let head = "ETA: "@;
    if eta_text(a) == eta_text(b) {
        match (a, b) {
            (Some(x), Some(y)) => {
                let (p, q) = (lemma_eta(x), lemma_eta(y));
                let (s, t) = (decimal(p.0) + p.1, decimal(q.0) + q.1);
                assert(s =~= (head + s).subrange(5, (head + s).len() as int));
                assert(t =~= (head + t).subrange(5, (head + t).len() as int));
                lemma_decimal_first(p.0, p.1, q.0, q.1);
                assert(p.1[0] == q.1[0]);
                if x >= 60 {
                    let (u, v) = (
                        decimal((x % 60) as nat) + "s"@,
                        decimal((y % 60) as nat) + "s"@,
                    );
                    assert(u =~= p.1.subrange(2, p.1.len() as int));
                    assert(v =~= q.1.subrange(2, q.1.len() as int));
                    lemma_decimal_first((x % 60) as nat, "s"@, (y % 60) as nat, "s"@);
                }
            },
            (Some(x), None) => lemma_known(x),
            (None, Some(y)) => lemma_known(y),
            (None, None) => {},
        }
    }
}

/// A known remaining time does not read like one that is not known.
proof fn lemma_known(secs: u64)
    ensures
        eta_text(Some(secs)) != eta_text(None),
{
    reveal_strlit("ETA: ");
    reveal_strlit("ETA: Calculating...");
    let parts = lemma_eta(secs);
    lemma_decimal_digits(parts.0, 0);
    assert(decimal(parts.0).len() > 0);
    assert(eta_text(Some(secs))[5] == decimal(parts.0)[0]);
    assert(is_no_digit('C'));
}

// ---------------------------------------------------------------------------
// Sizes and speeds
// ---------------------------------------------------------------------------

/// Below a gigabyte, a speed of a whole number of bytes per second reads as that number
/// of bytes does, with `/s` behind.
pub proof fn whole_speeds_read_as_sizes(bytes: nat, value: Float)
    requires
        bytes < GIGA,
        value.mantissa * power(value.exponent as int) == bytes * power(-value.exponent),
    ensures
        speed_text(Binary64::Finite { negative: false, value }) == size_text(bytes) + "/s"@,
{
    reveal_strlit("/s");
    reveal_strlit(" B");
    reveal_strlit(" B/s");
    reveal_strlit(" KB");
    reveal_strlit(" KB/s");
    reveal_strlit(" MB");
    reveal_strlit(" MB/s");
    reveal_with_fuel(power_of_ten, 2);
    let d = power(-value.exponent);
    let n = bytes * d;
    lemma_power_pos(-value.exponent);
    let text = speed_text(Binary64::Finite { negative: false, value });
    assert(n >= MEGA * d <==> bytes >= MEGA) by (nonlinear_arith)
        requires
            n == bytes * d,
            d > 0,
    ;
    assert(n >= KILO * d <==> bytes >= KILO) by (nonlinear_arith)
        requires
            n == bytes * d,
            d > 0,
    ;
    assert(n * 10 == (bytes * 10) * d) by (nonlinear_arith)
        requires
            n == bytes * d,
    ;
    if bytes >= MEGA {
        common_factor_does_not_matter(bytes * 10, MEGA as nat, d);
        assert(fixed(n, MEGA as nat * d, 1) == fixed(bytes, MEGA as nat, 1));
        assert(text =~= size_text(bytes) + "/s"@);
    } else if bytes >= KILO {
        common_factor_does_not_matter(bytes * 10, KILO as nat, d);
        assert(fixed(n, KILO as nat * d, 1) == fixed(bytes, KILO as nat, 1));
        assert(text =~= size_text(bytes) + "/s"@);
    } else {
        common_factor_does_not_matter(bytes, 1, d);
        assert(n * 1 == n && 1 * d == d && bytes / 1 == bytes && bytes % 1 == 0);
        assert(round_half_even(bytes, 1) == bytes);
        assert(fixed(n, d, 0) == decimal(bytes));
        assert(text =~= size_text(bytes) + "/s"@);
    }
}

/// So does the speed that is given by the bits of the binary64 number nearest to those
/// bytes.
pub proof fn speeds_and_sizes_read_alike(bytes: nat, bits: u64)
    requires
        bytes < GIGA,
        bits == double_code(double_of(bytes)),
    ensures
        speed_text(decoded(bits)) == size_text(bytes) + "/s"@,
{
    let (m, e) = double_of(bytes);
    small_integers_are_doubles(bytes);
    lemma2_to64();
    lemma2_to64_rest();
    if bytes == 0 {
        whole_speeds_read_as_sizes(bytes, Float { mantissa: 0, exponent: 0 });
    } else {
        lemma_nearest_bits(bytes, 1, 53);
        lemma_power_pos(e);
        lemma_power_pos(-e);
        if e >= 0 {
            assert(m <= m * power(e) && bytes * power(-e) == bytes) by (nonlinear_arith)
                requires
                    m >= 0,
                    power(e) >= 1,
                    power(-e) == 1,
            ;
        }
        assert(power(-e) <= m && m * power(e) == m) by (nonlinear_arith)
            requires
                m * power(e) == bytes * power(-e),
                power(e) == 1,
                bytes >= 1,
                power(-e) >= 0,
        ;
        lemma_power_at_most(-e, 53);
        let value = Float { mantissa: m as u64, exponent: e as i32 };
        let field = (e + 1075) as int;
        assert(bits == field * 0x10_0000_0000_0000 + (m - 0x10_0000_0000_0000));
        assert(bits / 0x10_0000_0000_0000 == field);
        assert(decoded(bits) == (Binary64::Finite { negative: false, value }));
        whole_speeds_read_as_sizes(bytes, value);
    }
}

} // verus!

//! Sizes, speeds and remaining times as the window shows them.
use crate::float::{
    binade, decoded, double_of, in_binade, lemma_binade_exists, lemma_binade_unique,
    lemma_power_one, lemma_power_pos, power, power_of_two, Binary64, Float,
};
use crate::float_order::{lemma_nearest_bits, lemma_nearest_keeps_order, lemma_values_keep_order};
use crate::numeral::push_decimal_shifted;
use crate::rounding::{
    common_factor_does_not_matter, round_half_even, rounded, rounding_keeps_order,
};
use crate::text::{decimal, digits, power_of_ten, push_decimal, push_digits};
use vstd::arithmetic::power2::{
    lemma2_to64, lemma2_to64_rest, lemma_pow2_adds, lemma_pow2_pos, lemma_pow2_strictly_increases,
    pow2,
};
use vstd::prelude::*;

verus! {

/// Bytes in a kibibyte, shown as KB.
pub const KILO: u64 = 1024;

/// Bytes in a mebibyte, shown as MB.
pub const MEGA: u64 = 1_048_576;

/// Bytes in a gibibyte, shown as GB.
pub const GIGA: u64 = 1_073_741_824;

// ---------------------------------------------------------------------------
// Decimals
// ---------------------------------------------------------------------------

/// The number of units of the last of `places` digits behind the point, in decimal.
pub open spec fn pointed(units: nat, places: nat) -> Seq<char> {
    if places == 0 {
        decimal(units)
    } else {
        let scale = power_of_ten(places);
        decimal(units / scale) + seq!['.'] + digits(places, units % scale)
    }
}

/// `n / d` in decimal, rounded to `places` digits behind the point.
pub open spec fn fixed(n: nat, d: nat, places: nat) -> Seq<char> {
    pointed(round_half_even(n * power_of_ten(places), d), places)
}

/// Appends `n / d`, rounded to at most two digits behind the point.
fn push_fixed(out: &mut String, n: u128, d: u128, places: u8)
    requires
        0 < d <= 0x8000_0000_0000_0000_0000_0000_0000_0000,
        n <= 0x1_0000_0000_0000_0000_0000_0000_0000,
        places <= 2,
    ensures
        final(out)@ == old(out)@ + fixed(n as nat, d as nat, places as nat),
{
    reveal_with_fuel(power_of_ten, 3);
    let scale: u128 = if places == 0 {
        1
    } else if places == 1 {
        10
    } else {
        100
    };
    let scaled: u128 = rounded(n * scale, d);
    if places == 0 {
        push_decimal(out, scaled);
        return ;
    }
    push_decimal(out, scaled / scale);
    proof {
        reveal_strlit(".");
    }
    out.append(".");
    push_digits(out, places, scaled % scale);
    assert(out@ =~= old(out)@ + fixed(n as nat, d as nat, places as nat));
}

// ---------------------------------------------------------------------------
// Sizes
// ---------------------------------------------------------------------------

/// A size in bytes, in the largest unit that it fills.
pub open spec fn size_text(bytes: nat) -> Seq<char> {
    if bytes >= GIGA {
        // The division is one of binary64 numbers.
        let (m, e) = double_of(bytes);
        fixed((m * power(e)) as nat, GIGA as nat * power(-e), 2) + " GB"@
    } else if bytes >= MEGA {
        fixed(bytes, MEGA as nat, 1) + " MB"@
    } else if bytes >= KILO {
        fixed(bytes, KILO as nat, 1) + " KB"@
    } else {
        decimal(bytes) + " B"@
    }
}

/// Up to `2^53`, the binary64 number nearest to an integer is that integer.
pub proof fn small_integers_are_doubles(n: nat)
    requires
        n <= 0x20_0000_0000_0000,
    ensures
        ({
            let (m, e) = double_of(n);
            m * power(e) == n * power(-e)
        }),
{
    lemma2_to64();
    lemma2_to64_rest();
    if n == 0 {
        assert(0 * power(0) == 0 * power(-0));
    } else if n == 0x20_0000_0000_0000 {
        assert(power(1) == 2 && power(-1) == 1);
        assert(n * power(-1) == n && 1 * power(1) == 2);
        assert(pow2(52) * (1 * power(1)) == 0x20_0000_0000_0000);
        assert(pow2(53) * (1 * power(1)) == 0x40_0000_0000_0000);
        assert(in_binade(n, 1, 53, 1));
        lemma_binade_unique(n, 1, 53, 1);
        assert(n / 2 == 0x10_0000_0000_0000 && n % 2 == 0);
    } else {
        let e = binade(n, 1, 53);
        lemma_binade_exists(n, 1, 53);
        if e > 0 {
            if e > 1 {
                lemma_pow2_strictly_increases(1, e as nat);
            }
            lemma_power_one(n as int, -e);
            assert(0x10_0000_0000_0000 * (1 * power(e)) >= 0x20_0000_0000_0000)
                by (nonlinear_arith)
                requires
                    power(e) >= 2,
            ;
        }
        let m = n * power(-e);
        assert(m / 1 == m && m % 1 == 0 && m * 1 == m);
        lemma_power_one(m as int, e);
    }
}

/// Up to `2^53` bytes, gigabytes too are those of the exact size.
pub proof fn sizes_are_exact(bytes: nat)
    requires
        GIGA <= bytes <= 0x20_0000_0000_0000,
    ensures
        size_text(bytes) == fixed(bytes, GIGA as nat, 2) + " GB"@,
{
    let (m, e) = double_of(bytes);
    let c = power(-e);
    small_integers_are_doubles(bytes);
    lemma_power_pos(-e);
    reveal_with_fuel(power_of_ten, 3);
    common_factor_does_not_matter(bytes * 100, GIGA as nat, c);
    assert((bytes * c) * 100 == (bytes * 100) * c) by (nonlinear_arith);
}

/// The unit in which a size is shown: bytes, KB, MB or GB, from 0.
pub open spec fn size_unit(bytes: nat) -> nat {
    if bytes >= GIGA {
        3
    } else if bytes >= MEGA {
        2
    } else if bytes >= KILO {
        1
    } else {
        0
    }
}

/// What a unit is called behind a number.
pub open spec fn size_unit_name(unit: nat) -> Seq<char> {
    if unit == 3 {
        " GB"@
    } else if unit == 2 {
        " MB"@
    } else if unit == 1 {
        " KB"@
    } else {
        " B"@
    }
}

/// How many digits stand behind the point of a size in a unit.
pub open spec fn size_places(unit: nat) -> nat {
    if unit == 3 {
        2
    } else if unit == 0 {
        0
    } else {
        1
    }
}

/// The number that is shown of a size, in units of its last digit.
pub open spec fn size_numeral(bytes: nat) -> nat {
    if bytes >= GIGA {
        let (m, e) = double_of(bytes);
        round_half_even((m * power(e)) as nat * 100, GIGA as nat * power(-e))
    } else if bytes >= MEGA {
        round_half_even(bytes * 10, MEGA as nat)
    } else if bytes >= KILO {
        round_half_even(bytes * 10, KILO as nat)
    } else {
        bytes
    }
}

/// The text of a size is its number, with the digits of its unit behind the point, and
/// the name of its unit.
pub proof fn size_reads_numeral_and_unit(bytes: nat)
    ensures
        size_text(bytes) == pointed(size_numeral(bytes), size_places(size_unit(bytes)))
            + size_unit_name(size_unit(bytes)),
{
    reveal_with_fuel(power_of_ten, 3);
}

/// A greater size never has a smaller unit or, in the same unit, a smaller number.
pub proof fn greater_sizes_read_greater(a: nat, b: nat)
    requires
        a <= b,
    ensures
        size_unit(a) <= size_unit(b),
        size_unit(a) == size_unit(b) ==> size_numeral(a) <= size_numeral(b),
{
    if a >= GIGA {
        let (x, y) = (double_of(a), double_of(b));
        lemma_nearest_bits(a, 1, 53);
        lemma_nearest_bits(b, 1, 53);
        lemma_nearest_keeps_order(a, 1, b, 1, 53);
        lemma_values_keep_order(x, y, 53);
        lemma_power_pos(x.1);
        lemma_power_pos(-x.1);
        lemma_power_pos(y.1);
        lemma_power_pos(-y.1);
        let (n1, n2) = (x.0 * power(x.1), y.0 * power(y.1));
        let (d1, d2) = (power(-x.1), power(-y.1));
        assert(n1 >= 0 && n2 >= 0) by (nonlinear_arith)
            requires
                n1 == x.0 * power(x.1),
                n2 == y.0 * power(y.1),
                x.0 >= 0,
                y.0 >= 0,
        ;
        assert((n1 * 100) * (GIGA * d2) <= (n2 * 100) * (GIGA * d1)) by (nonlinear_arith)
            requires
                n1 * d2 <= n2 * d1,
        ;
        rounding_keeps_order(
            (n1 * 100) as nat,
            GIGA as nat * d1,
            (n2 * 100) as nat,
            GIGA as nat * d2,
        );
    } else if a >= MEGA {
        rounding_keeps_order(a * 10, MEGA as nat, b * 10, MEGA as nat);
    } else if a >= KILO {
        rounding_keeps_order(a * 10, KILO as nat, b * 10, KILO as nat);
    }
}

/// A size in bytes as text: gigabytes to two decimals, megabytes and kilobytes to
/// one, fewer bytes as they are.
pub fn format_size(bytes: u64) -> (s: String)
    ensures
        s@ == size_text(bytes as nat),
{
    let mut out = String::new();
    if bytes >= GIGA {
        let double = Float::double(bytes);
        let ghost m = double.mantissa as int;
        let ghost e = double.exponent as int;
        proof {
            lemma2_to64();
            lemma2_to64_rest();
        }
        if double.exponent > 0 {
            let factor: u128 = power_of_two(double.exponent as u32);
            proof {
                if e < 13 {
                    lemma_pow2_strictly_increases(e as nat, 13);
                }
                assert(m * factor <= 0x20_0000_0000_0000 * 0x2000) by (nonlinear_arith)
                    requires
                        0 <= m <= 0x20_0000_0000_0000,
                        0 <= factor <= 0x2000,
                ;
            }
            push_fixed(&mut out, double.mantissa as u128 * factor, GIGA as u128, 2);
        } else {
            let divisor: u128 = power_of_two((-double.exponent) as u32);
            proof {
                lemma_power_one(m, e);
                if -e < 53 {
                    lemma_pow2_strictly_increases((-e) as nat, 53);
                }
                if -e > 0 {
                    lemma_pow2_strictly_increases(0, (-e) as nat);
                }
            }
            push_fixed(&mut out, double.mantissa as u128, GIGA as u128 * divisor, 2);
        }
        out.append(" GB");
    } else if bytes >= MEGA {
        push_fixed(&mut out, bytes as u128, MEGA as u128, 1);
        out.append(" MB");
    } else if bytes >= KILO {
        push_fixed(&mut out, bytes as u128, KILO as u128, 1);
        out.append(" KB");
    } else {
        push_decimal(&mut out, bytes as u128);
        out.append(" B");
    }
    assert(out@ =~= size_text(bytes as nat));
    out
}

// ---------------------------------------------------------------------------
// Speeds
// ---------------------------------------------------------------------------

/// A speed in bytes per second, in the largest unit up to megabytes that it fills.
pub open spec fn speed_text(speed: Binary64) -> Seq<char> {
    match speed {
        Binary64::NotANumber => "NaN B/s"@,
        Binary64::Infinite { negative: false } => "inf MB/s"@,
        Binary64::Infinite { negative: true } => "-inf B/s"@,
        Binary64::Finite { negative, value } => {
            let n = (value.mantissa * power(value.exponent as int)) as nat;
            let d = power(-value.exponent);
            if negative {
                "-"@ + fixed(n, d, 0) + " B/s"@
            } else if n >= MEGA * d {
                fixed(n, (MEGA * d) as nat, 1) + " MB/s"@
            } else if n >= KILO * d {
                fixed(n, (KILO * d) as nat, 1) + " KB/s"@
            } else {
                fixed(n, d, 0) + " B/s"@
            }
        },
    }
}

/// A multiple of `d` over `d` is an integer.
proof fn lemma_fixed_integer(k: nat, d: nat)
    requires
        d > 0,
    ensures
        fixed(k * d, d, 1) == decimal(k) + ".0"@,
{
    reveal_with_fuel(power_of_ten, 3);
    reveal_with_fuel(digits, 3);
    reveal_strlit(".0");
    let n = k * d * 10;
    assert(n / d == 10 * k && n % d == 0) by (nonlinear_arith)
        requires
            n == k * d * 10,
            d > 0,
    ;
    assert(power_of_ten(1) == 10);
    assert(round_half_even(n, d) == 10 * k);
    assert(digits(1, 0) =~= seq!['0']);
    assert(fixed(k * d, d, 1) =~= decimal(k) + ".0"@);
}

/// A speed in bytes per second, given by the bits of a binary64 number, as text:
/// megabytes and kilobytes to one decimal, fewer bytes rounded to an integer.
pub fn format_speed(bits: u64) -> (s: String)
    ensures
        s@ == speed_text(decoded(bits)),
{
    match Binary64::from_bits(bits) {
        Binary64::NotANumber => "NaN B/s".to_owned(),
        Binary64::Infinite { negative } => if negative {
            "-inf B/s".to_owned()
        } else {
            "inf MB/s".to_owned()
        },
        Binary64::Finite { negative, value } => finite_speed(negative, value),
    }
}

/// An integer needs no rounding.
proof fn lemma_fixed_whole(n: nat)
    ensures
        fixed(n, 1, 0) == decimal(n),
{
    assert(power_of_ten(0) == 1);
    assert(n * 1 == n) by (nonlinear_arith);
}

/// A finite speed as text.
fn finite_speed(negative: bool, value: Float) -> (s: String)
    requires
        value.mantissa < 0x20_0000_0000_0000,
        -1074 <= value.exponent <= 971,
        value.mantissa == 0 ==> value.exponent == 0,
    ensures
        s@ == speed_text(Binary64::Finite { negative, value }),
{
    let ghost m = value.mantissa as int;
    let ghost e = value.exponent as int;
    let ghost n = (m * power(e)) as nat;
    let ghost d = power(-e);
    proof {
        lemma_power_pos(e);
        lemma_power_pos(-e);
        lemma2_to64();
        lemma2_to64_rest();
        assert(m * power(e) >= 0) by (nonlinear_arith)
            requires
                m >= 0,
                power(e) > 0,
        ;
    }
    if value.exponent >= 20 {
        let mut out = String::new();
        if negative {
            out.append("-");
            push_decimal_shifted(&mut out, value.mantissa, value.exponent as u32);
            out.append(" B/s");
            proof {
                lemma_fixed_whole(n);
                assert(out@ =~= "-"@ + fixed(n, d, 0) + " B/s"@);
            }
        } else {
            push_decimal_shifted(&mut out, value.mantissa, (value.exponent - 20) as u32);
            out.append(".0");
            out.append(" MB/s");
            proof {
                let k = value.mantissa as nat * pow2((e - 20) as nat);
                lemma_pow2_adds((e - 20) as nat, 20);
                lemma_pow2_pos((e - 20) as nat);
                assert(m * (pow2((e - 20) as nat) * MEGA) == k * MEGA && k >= 1)
                    by (nonlinear_arith)
                    requires
                        k == m * pow2((e - 20) as nat),
                        m >= 1,
                        pow2((e - 20) as nat) >= 1,
                ;
                lemma_fixed_integer(k, MEGA as nat);
                assert(out@ =~= fixed(n, (MEGA * d) as nat, 1) + " MB/s"@);
            }
        }
        out
    } else if value.exponent >= 0 {
        let factor: u128 = power_of_two(value.exponent as u32);
        proof {
            if e < 20 {
                lemma_pow2_strictly_increases(e as nat, 20);
            }
            assert(m * factor <= 0x20_0000_0000_0000 * 0x10_0000) by (nonlinear_arith)
                requires
                    0 <= m <= 0x20_0000_0000_0000,
                    0 <= factor <= 0x10_0000,
            ;
        }
        ratio_speed(negative, value.mantissa as u128 * factor, 1)
    } else if value.exponent >= -63 {
        let divisor: u128 = power_of_two((-value.exponent) as u32);
        proof {
            lemma_power_one(m, e);
            if e > -63 {
                lemma_pow2_strictly_increases((-e) as nat, 63);
            }
        }
        ratio_speed(negative, value.mantissa as u128, divisor)
    } else {
        let mut out = String::new();
        if negative {
            out.append("-");
        }
        push_decimal(&mut out, 0);
        out.append(" B/s");
        proof {
            lemma_power_one(m, e);
            lemma_pow2_strictly_increases(63, (-e) as nat);
            assert(power_of_ten(0) == 1);
            assert(n * 1 == n) by (nonlinear_arith);
            assert(n / d == 0 && n % d == n) by (nonlinear_arith)
                requires
                    n < d,
            ;
            assert(out@ =~= if negative {
                "-"@ + fixed(n, d, 0) + " B/s"@
            } else {
                fixed(n, d, 0) + " B/s"@
            });
        }
        out
    }
}

/// The speed `n / d` as text.
fn ratio_speed(negative: bool, n: u128, d: u128) -> (s: String)
    requires
        n <= 0x1_0000_0000_0000_0000_0000_0000_0000,
        0 < d <= 0x8000_0000_0000_0000,
    ensures
        s@ == if negative {
            "-"@ + fixed(n as nat, d as nat, 0) + " B/s"@
        } else if n >= MEGA * d {
            fixed(n as nat, (MEGA * d) as nat, 1) + " MB/s"@
        } else if n >= KILO * d {
            fixed(n as nat, (KILO * d) as nat, 1) + " KB/s"@
        } else {
            fixed(n as nat, d as nat, 0) + " B/s"@
        },
{
    let mut out = String::new();
    if negative {
        out.append("-");
        push_fixed(&mut out, n, d, 0);
        out.append(" B/s");
    } else if n >= MEGA as u128 * d {
        push_fixed(&mut out, n, MEGA as u128 * d, 1);
        out.append(" MB/s");
    } else if n >= KILO as u128 * d {
        push_fixed(&mut out, n, KILO as u128 * d, 1);
        out.append(" KB/s");
    } else {
        push_fixed(&mut out, n, d, 0);
        out.append(" B/s");
    }
    assert(out@ =~= if negative {
        "-"@ + fixed(n as nat, d as nat, 0) + " B/s"@
    } else if n >= MEGA * d {
        fixed(n as nat, (MEGA * d) as nat, 1) + " MB/s"@
    } else if n >= KILO * d {
        fixed(n as nat, (KILO * d) as nat, 1) + " KB/s"@
    } else {
        fixed(n as nat, d as nat, 0) + " B/s"@
    });
    out
}

// ---------------------------------------------------------------------------
// Remaining time
// ---------------------------------------------------------------------------

/// The remaining time as text, where it is known.
pub open spec fn eta_text(seconds: Option<u64>) -> Seq<char> {
    match seconds {
        Some(secs) => if secs >= 60 {
            "ETA: "@ + decimal((secs / 60) as nat) + "m "@ + decimal((secs % 60) as nat) + "s"@
        } else {
            "ETA: "@ + decimal(secs as nat) + "s"@
        },
        None => "ETA: Calculating..."@,
    }
}

/// The remaining time in minutes and seconds, or that it is being calculated.
pub fn format_eta(seconds: Option<u64>) -> (s: String)
    ensures
        s@ == eta_text(seconds),
{
    if let Some(secs) = seconds {
        let m: u64 = secs / 60;
        let s: u64 = secs % 60;
        let mut out = "ETA: ".to_owned();
        if m > 0 {
            push_decimal(&mut out, m as u128);
            out.append("m ");
        }
        push_decimal(&mut out, s as u128);
        out.append("s");
        out
    } else {
        "ETA: Calculating...".to_owned()
    }
}

} // verus!

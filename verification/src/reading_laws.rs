//! What can be read from the texts of sizes, speeds and remaining times.
use crate::float::{decoded, double_of, lemma_power_pos, power, Binary64};
use crate::format::{fixed, format_eta, format_size, format_speed, GIGA};
use crate::nearest_laws::{nearest_is_near, stands_for};
use crate::rounding::{round_half_even, rounding_is_near};
use crate::text::{decimal, digits, power_of_ten};
use crate::text_laws::{decimal_reads_back, digits_read_back, is_digit, number, reads_as};
use vstd::prelude::*;

verus! {

/// Whether an integer is the one nearest to `n / d`, and the even one of two such.
pub open spec fn is_nearest(u: int, n: int, d: int) -> bool {
    &&& (2 * u - 1) * d <= 2 * n <= (2 * u + 1) * d
    &&& (2 * u - 1) * d == 2 * n || 2 * n == (2 * u + 1) * d ==> u % 2 == 0
}

/// Whether a text shows `n / d` with one digit behind the point, and a unit.
pub open spec fn shows_tenths(s: Seq<char>, n: int, d: int, unit: Seq<char>) -> bool {
    exists|whole: Seq<char>, tenth: Seq<char>|
        #![trigger reads_as(whole, number(whole)), reads_as(tenth, number(tenth))]
        {
            &&& reads_as(whole, number(whole))
            &&& reads_as(tenth, number(tenth))
            &&& tenth.len() == 1
            &&& s == whole + seq!['.'] + tenth + unit
            &&& is_nearest(10 * number(whole) + number(tenth), 10 * n, d)
        }
}

/// Whether a text shows `n / d` with two digits behind the point, and a unit.
pub open spec fn shows_hundredths(s: Seq<char>, n: int, d: int, unit: Seq<char>) -> bool {
    exists|whole: Seq<char>, part: Seq<char>|
        #![trigger reads_as(whole, number(whole)), are_digits(part, 2)]
        {
            &&& reads_as(whole, number(whole))
            &&& are_digits(part, 2)
            &&& s == whole + seq!['.'] + part + unit
            &&& is_nearest(100 * number(whole) + number(part), 100 * n, d)
        }
}

/// Whether a text shows the integer nearest to `n / d`, and a unit.
pub open spec fn shows_integer(s: Seq<char>, n: int, d: int, unit: Seq<char>) -> bool {
    exists|whole: Seq<char>| #[trigger]
        reads_as(whole, number(whole)) && s == whole + unit && is_nearest(number(whole), n, d)
}

/// Whether a text is so many digits.
pub open spec fn are_digits(s: Seq<char>, count: nat) -> bool {
    s.len() == count && forall|i: int| 0 <= i < s.len() ==> is_digit(#[trigger] s[i])
}

proof fn lemma_tenths(n: nat, d: nat, unit: Seq<char>)
    requires
        d > 0,
    ensures
        shows_tenths(fixed(n, d, 1) + unit, n as int, d as int, unit),
{
    reveal_with_fuel(power_of_ten, 2);
    let u = round_half_even(n * 10, d);
    rounding_is_near(n * 10, d);
    let (whole, tenth) = (decimal(u / 10), digits(1, u % 10));
    decimal_reads_back(u / 10);
    digits_read_back(1, u % 10);
    assert(reads_as(whole, number(whole)) && reads_as(tenth, number(tenth)));
    assert(10 * number(whole) + number(tenth) == u);
    assert(fixed(n, d, 1) + unit =~= whole + seq!['.'] + tenth + unit);
}

proof fn lemma_hundredths(n: nat, d: nat, unit: Seq<char>)
    requires
        d > 0,
    ensures
        shows_hundredths(fixed(n, d, 2) + unit, n as int, d as int, unit),
{
    reveal_with_fuel(power_of_ten, 3);
    let u = round_half_even(n * 100, d);
    rounding_is_near(n * 100, d);
    let (whole, part) = (decimal(u / 100), digits(2, u % 100));
    decimal_reads_back(u / 100);
    digits_read_back(2, u % 100);
    assert(reads_as(whole, number(whole)) && are_digits(part, 2));
    assert(100 * number(whole) + number(part) == u);
    assert(fixed(n, d, 2) + unit =~= whole + seq!['.'] + part + unit);
}

proof fn lemma_integer(n: nat, d: nat, unit: Seq<char>)
    requires
        d > 0,
    ensures
        shows_integer(fixed(n, d, 0) + unit, n as int, d as int, unit),
{
    assert(power_of_ten(0) == 1);
    assert(n * 1 == n) by (nonlinear_arith);
    let u = round_half_even(n, d);
    rounding_is_near(n, d);
    decimal_reads_back(u);
    assert(reads_as(decimal(u), number(decimal(u))));
}

/// A size is shown in bytes below 1024, in kibibytes to a tenth below 1024 times that, in
/// mebibytes to a tenth below 1024 times that, and else in gibibytes to a hundredth: each
/// the nearest to the size, which for gibibytes is first rounded to a binary64 number.
pub proof fn sizes_read_as_they_are(bytes: u64, s: String)
    requires
        call_ensures(format_size, (bytes,), s),
    ensures
        bytes < 1024 ==> exists|t: Seq<char>| #[trigger]
            reads_as(t, bytes as int) && s@ == t + " B"@,
        1024 <= bytes < 1024 * 1024 ==> shows_tenths(s@, bytes as int, 1024, " KB"@),
        1024 * 1024 <= bytes < 1024 * 1024 * 1024 ==> shows_tenths(
            s@,
            bytes as int,
            0x10_0000,
            " MB"@,
        ),
        bytes >= 1024 * 1024 * 1024 ==> exists|x: (int, int)| #[trigger]
            stands_for(x, bytes as nat, 1, 53) && shows_hundredths(
                s@,
                x.0 * power(x.1),
                (0x4000_0000 * power(-x.1)) as int,
                " GB"@,
            ),
{
    decimal_reads_back(bytes as nat);
    lemma_tenths(bytes as nat, 1024, " KB"@);
    lemma_tenths(bytes as nat, 1024 * 1024, " MB"@);
    if bytes < 1024 {
        assert(reads_as(decimal(bytes as nat), bytes as int));
    }
    if bytes >= 1024 * 1024 * 1024 {
        let x = double_of(bytes as nat);
        nearest_is_near(bytes as nat, 1, 53);
        assert(stands_for(x, bytes as nat, 1, 53));
        lemma_power_pos(x.1);
        lemma_power_pos(-x.1);
        let n = x.0 * power(x.1);
        assert(n >= 0) by (nonlinear_arith)
            requires
                n == x.0 * power(x.1),
                x.0 >= 0,
        ;
        lemma_hundredths(n as nat, GIGA as nat * power(-x.1), " GB"@);
    }
}

/// A speed is shown in bytes below 1024, in kibibytes to a tenth below 1024 times that,
/// and else in mebibytes to a tenth; one below zero in bytes. What is no number, or has no
/// end, is shown as such.
pub proof fn speeds_read_as_they_are(bits: u64, s: String)
    requires
        call_ensures(format_speed, (bits,), s),
    ensures
        match decoded(bits) {
            Binary64::NotANumber => s@ == "NaN B/s"@,
            Binary64::Infinite { negative } => s@ == if negative {
                "-inf B/s"@
            } else {
                "inf MB/s"@
            },
            Binary64::Finite { negative, value } => {
                let n = value.mantissa * power(value.exponent as int);
                let d = power(-value.exponent) as int;
                &&& negative ==> exists|rest: Seq<char>|
                    s@ == "-"@ + rest && #[trigger] shows_integer(rest, n, d, " B/s"@)
                &&& !negative && n < 1024 * d ==> shows_integer(s@, n, d, " B/s"@)
                &&& !negative && 1024 * d <= n < 1024 * 1024 * d ==> shows_tenths(
                    s@,
                    n,
                    1024 * d,
                    " KB/s"@,
                )
                &&& !negative && 1024 * 1024 * d <= n ==> shows_tenths(
                    s@,
                    n,
                    1024 * 1024 * d,
                    " MB/s"@,
                )
            },
        },
{
    if let Binary64::Finite { negative, value } = decoded(bits) {
        let n = value.mantissa * power(value.exponent as int);
        let d = power(-value.exponent);
        lemma_power_pos(value.exponent as int);
        lemma_power_pos(-value.exponent);
        assert(n >= 0) by (nonlinear_arith)
            requires
                n == value.mantissa * power(value.exponent as int),
        ;
        lemma_integer(n as nat, d, " B/s"@);
        lemma_tenths(n as nat, 1024 * d, " KB/s"@);
        lemma_tenths(n as nat, 1024 * 1024 * d, " MB/s"@);
        if negative {
            let rest = fixed(n as nat, d, 0) + " B/s"@;
            assert(s@ =~= "-"@ + rest);
            assert(shows_integer(rest, n, d as int, " B/s"@));
        }
    }
}

/// What the bits of a binary64 number stand for: sixty-fourth the sign, then eleven of
/// exponent and fifty-two of mantissa.
pub proof fn bits_stand_for_numbers(bits: u64, r: Binary64)
    requires
        call_ensures(Binary64::from_bits, (bits,), r),
    ensures
        ({
            let sign = bits / 0x8000_0000_0000_0000;
            let field = (bits / 0x10_0000_0000_0000) % 0x800;
            let fraction = bits % 0x10_0000_0000_0000;
            &&& field == 0x7ff && fraction > 0 ==> r is NotANumber
            &&& field == 0x7ff && fraction == 0 ==> r is Infinite && r->Infinite_negative == (sign
                == 1)
            &&& field < 0x7ff ==> r is Finite && r->Finite_negative == (sign == 1)
            &&& 0 < field < 0x7ff ==> r->value.mantissa == 0x10_0000_0000_0000 + fraction
                && r->value.exponent == field - 1075
            &&& field == 0 && fraction > 0 ==> r->value.mantissa == fraction && r->value.exponent
                == -1074
            &&& field == 0 && fraction == 0 ==> r->value.mantissa == 0
        }),
{
}

/// A remaining time is shown in whole minutes and the seconds beyond them, or in seconds
/// alone below a minute; and as being calculated where it is not known.
pub proof fn remaining_times_read_as_they_are(seconds: Option<u64>, s: String)
    requires
        call_ensures(format_eta, (seconds,), s),
    ensures
        seconds is None ==> s@ == "ETA: Calculating..."@,
        seconds matches Some(n) ==> {
            &&& n < 60 ==> exists|t: Seq<char>| #[trigger]
                reads_as(t, n as int) && s@ == "ETA: "@ + t + "s"@
            &&& n >= 60 ==> exists|m: Seq<char>, t: Seq<char>|
                #![trigger reads_as(m, number(m)), reads_as(t, number(t))]
                {
                    &&& reads_as(m, number(m))
                    &&& reads_as(t, number(t))
                    &&& 60 * number(m) + number(t) == n
                    &&& number(t) < 60
                    &&& s@ == "ETA: "@ + m + "m "@ + t + "s"@
                }
        },
{
    if let Some(n) = seconds {
        decimal_reads_back(n as nat);
        decimal_reads_back((n / 60) as nat);
        decimal_reads_back((n % 60) as nat);
        let (m, t) = (decimal((n / 60) as nat), decimal((n % 60) as nat));
        assert(reads_as(m, number(m)) && reads_as(t, number(t)));
        assert(reads_as(decimal(n as nat), n as int));
    }
}

} // verus!

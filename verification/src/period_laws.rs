//! What a period does to a scan: it keeps or drops whole rows.
use crate::date::{date_less, date_text, is_date, year_text, Ymd};
use crate::filter::{EntryView, FilterView};
use crate::scan::{day_text, in_order, is_listing, key_less, Key, ResultView, ScanView, Tally};
use crate::scan_laws::{
    bytes_under, counts_under, files_under, listing_is_unique, scan_counts_the_walk, scanned,
};
use crate::text::{
    ascii_lower, decimal, digit, digits, digits_order, lemma_decimal_injective, power_of_ten,
};
use vstd::prelude::*;

verus! {

// ---------------------------------------------------------------------------
// Texts of days
// ---------------------------------------------------------------------------

/// Whether a day that is known lies on the calendar.
pub open spec fn on_calendar(date: Option<Ymd>) -> bool {
    date matches Some(d) ==> is_date(d)
}

/// A decimal digit is no sign and no letter.
proof fn lemma_digit(d: nat)
    ensures
        digit(d) != '+',
        digit(d) != '-',
        digit(d) != 'U',
{
}

/// What a year reads as: neither empty nor beginning with a `U`, and unlike other years.
proof fn lemma_years(a: int, b: int)
    requires
        -262_143 <= a <= 262_142,
        -262_143 <= b <= 262_142,
    ensures
        year_text(a).len() >= 4,
        year_text(a)[0] != 'U',
        year_text(a) == year_text(b) ==> a == b,
{
    reveal_with_fuel(power_of_ten, 5);
    reveal_with_fuel(digits, 5);
    reveal_with_fuel(decimal, 6);
    let (x, y) = (year_text(a), year_text(b));
    let size = |n: int|
        (if n < 0 {
            -n
        } else {
            n
        }) as nat;
    let (m, n) = (size(a), size(b));
    lemma_digit((m / 1000) % 10);
    lemma_digit((n / 1000) % 10);
    if m <= 9999 && n <= 9999 {
        digits_order(4, m, n);
    }
    assert(digits(4, m).len() == 4 && digits(4, n).len() == 4);
    assert(m > 9999 ==> decimal(m).len() >= 5);
    assert(n > 9999 ==> decimal(n).len() >= 5);
    assert(digits(4, m)[0] == digit((m / 10 / 10 / 10) % 10));
    assert(digits(4, n)[0] == digit((n / 10 / 10 / 10) % 10));
    lemma_digit((m / 10 / 10 / 10) % 10);
    lemma_digit((n / 10 / 10 / 10) % 10);
    if x == y {
        let (plain_a, plain_b) = (0 <= a <= 9999, 0 <= b <= 9999);
        assert(plain_a ==> x[0] == digits(4, m)[0]);
        assert(plain_b ==> y[0] == digits(4, n)[0]);
        assert(plain_a == plain_b);
        if !plain_a {
            let (p, q) = (x.skip(1), y.skip(1));
            assert(p =~= if m <= 9999 {
                digits(4, m)
            } else {
                decimal(m)
            });
            assert(q =~= if n <= 9999 {
                digits(4, n)
            } else {
                decimal(n)
            });
            assert(p.len() == q.len());
            if m > 9999 && n > 9999 {
                lemma_decimal_injective(m, n);
            }
            assert(x[0] == y[0]);
        }
    }
}

/// Different days read differently, and a day that is not known reads like none.
pub proof fn days_are_told_apart(a: Option<Ymd>, b: Option<Ymd>)
    requires
        on_calendar(a),
        on_calendar(b),
    ensures
        day_text(a) == day_text(b) <==> a == b,
{
    reveal_strlit("Unknown");
    if let Some(d) = a {
        lemma_years(d.0, d.0);
        assert(date_text(d)[0] == year_text(d.0)[0]);
    }
    if let Some(e) = b {
        lemma_years(e.0, e.0);
        assert(date_text(e)[0] == year_text(e.0)[0]);
    }
    if let (Some(d), Some(e)) = (a, b) {
        if date_text(d) == date_text(e) {
            lemma_days(d, e);
        }
    }
}

/// Dates that read the same are the same.
proof fn lemma_days(d: Ymd, e: Ymd)
    requires
        is_date(d),
        is_date(e),
        date_text(d) == date_text(e),
    ensures
        d == e,
{
    reveal_with_fuel(power_of_ten, 3);
    lemma_years(d.0, e.0);
    digits_order(2, d.1 as nat, e.1 as nat);
    digits_order(2, d.2 as nat, e.2 as nat);
    let (s, t) = (date_text(d), date_text(e));
    let n = s.len() as int;
    assert(s.subrange(0, n - 6) =~= year_text(d.0) && t.subrange(0, n - 6) =~= year_text(e.0));
    assert(s.subrange(n - 5, n - 3) =~= digits(2, d.1 as nat));
    assert(t.subrange(n - 5, n - 3) =~= digits(2, e.1 as nat));
    assert(s.subrange(n - 2, n) =~= digits(2, d.2 as nat));
    assert(t.subrange(n - 2, n) =~= digits(2, e.2 as nat));
}

// ---------------------------------------------------------------------------
// Rows
// ---------------------------------------------------------------------------

/// The filter without a period.
pub open spec fn without_period(filter: FilterView) -> FilterView {
    FilterView { start_date: None, end_date: None, ..filter }
}

/// Whether a period keeps the rows of a day, given by its text.
pub open spec fn keeps(filter: FilterView, date: Seq<char>) -> bool {
    exists|d: Option<Ymd>| on_calendar(d) && #[trigger] day_text(d) == date && filter.covers(d)
}

/// A period keeps the rows of the days that lie in it, and those of days that are not
/// known.
pub proof fn period_keeps_its_days(filter: FilterView, date: Option<Ymd>)
    requires
        on_calendar(date),
    ensures
        keeps(filter, day_text(date)) <==> filter.covers(date),
        keeps(filter, "Unknown"@),
{
    assert(day_text(None) == "Unknown"@ && filter.covers(None));
    if keeps(filter, day_text(date)) {
        let d = choose|d: Option<Ymd>|
            on_calendar(d) && #[trigger] day_text(d) == day_text(date) && filter.covers(d);
        days_are_told_apart(d, date);
    }
}

/// A period that ends before it begins keeps only the rows of days that are not known.
pub proof fn reversed_period_keeps_no_day(filter: FilterView, start: Ymd, end: Ymd, date: Seq<char>)
    requires
        filter.start_date == Some(start),
        filter.end_date == Some(end),
        date_less(end, start),
        keeps(filter, date),
    ensures
        date == "Unknown"@,
{
}

/// Whether the days of a walk lie on the calendar.
pub open spec fn has_real_days(walk: Seq<EntryView>) -> bool {
    forall|i: int|
        0 <= i < walk.len() ==> ((#[trigger] walk[i]).metadata matches Some(info) ==> on_calendar(
            info.modified,
        ))
}

/// Under a key whose day is kept, a period leaves the sums; under others there are none.
proof fn lemma_sums_in_period(filter: FilterView, walk: Seq<EntryView>, key: Key)
    requires
        has_real_days(walk),
    ensures
        files_under(filter, walk, key) == if keeps(filter, key.0) {
            files_under(without_period(filter), walk, key)
        } else {
            0
        },
        bytes_under(filter, walk, key) == if keeps(filter, key.0) {
            bytes_under(without_period(filter), walk, key)
        } else {
            0
        },
    decreases walk.len(),
{
    if walk.len() > 0 {
        let e = walk.last();
        let open = without_period(filter);
        lemma_sums_in_period(filter, walk.drop_last(), key);
        assert(walk[walk.len() - 1] == e);
        assert(open.extensions == filter.extensions);
        if let Some(extension) = e.extension {
            assert(filter.lists(extension) == open.lists(extension)) by {
                if filter.lists(extension) {
                    let i = choose|i: int|
                        0 <= i < filter.extensions.len() && ascii_lower(
                            #[trigger] filter.extensions[i],
                        ) == ascii_lower(extension);
                    assert(open.extensions[i] == filter.extensions[i]);
                }
            }
        }
        if counts_under(open, e, key) {
            period_keeps_its_days(filter, e.metadata->Some_0.modified);
        }
        assert(counts_under(filter, e, key) <==> counts_under(open, e, key) && keeps(
            filter,
            key.0,
        ));
    }
}

/// Rows that are filtered stay in order, and are exactly the rows that pass.
proof fn lemma_filtered(list: Seq<ResultView>, pred: spec_fn(ResultView) -> bool)
    requires
        in_order(list),
    ensures
        in_order(list.filter(pred)),
        forall|i: int|
            0 <= i < list.filter(pred).len() ==> pred(#[trigger] list.filter(pred)[i])
                && list.contains(list.filter(pred)[i]),
        forall|j: int|
            0 <= j < list.len() && pred(#[trigger] list[j]) ==> list.filter(pred).contains(list[j]),
    decreases list.len(),
{
    reveal(Seq::filter);
    let out = list.filter(pred);
    if list.len() > 0 {
        let rest = list.drop_last();
        let sub = rest.filter(pred);
        let last = list.len() - 1;
        lemma_filtered(rest, pred);
        assert forall|i: int| 0 <= i < out.len() implies pred(#[trigger] out[i]) && list.contains(
            out[i],
        ) by {
            if i < sub.len() {
                assert(out[i] == sub[i]);
                let j = choose|j: int| 0 <= j < rest.len() && rest[j] == sub[i];
                assert(list[j] == out[i]);
            } else {
                assert(out[i] == list[last]);
            }
        }
        assert forall|j: int| 0 <= j < list.len() && pred(#[trigger] list[j]) implies out.contains(
            list[j],
        ) by {
            if j < last {
                assert(rest[j] == list[j]);
                let i = choose|i: int| 0 <= i < sub.len() && sub[i] == rest[j];
                assert(out[i] == list[j]);
            } else {
                assert(out[out.len() - 1] == list[j]);
            }
        }
        if pred(list[last]) {
            assert forall|i: int, j: int| 0 <= i < j < out.len() implies key_less(
                #[trigger] out[i].key(),
                #[trigger] out[j].key(),
            ) by {
                assert(out[i] == sub[i]);
                if j < sub.len() {
                    assert(out[j] == sub[j]);
                } else {
                    let k = choose|k: int| 0 <= k < rest.len() && rest[k] == sub[i];
                    assert(list[k] == out[i] && list[last] == out[j]);
                }
            }
        }
    }
}

/// A scan with a period has the rows of the scan without one whose days the period
/// keeps, in the same order, with the same counts and sizes.
pub proof fn period_keeps_whole_rows(
    scan: ScanView,
    walk: Seq<EntryView>,
    list: Seq<ResultView>,
    all: Seq<ResultView>,
)
    requires
        scan.stats == Map::<Key, Tally>::empty(),
        has_real_days(walk),
        is_listing(list, scan.camera_label, scanned(scan, walk).stats),
        is_listing(
            all,
            scan.camera_label,
            scanned(ScanView { filter: without_period(scan.filter), ..scan }, walk).stats,
        ),
    ensures
        list == all.filter(|r: ResultView| keeps(scan.filter, r.date)),
{
    let open = ScanView { filter: without_period(scan.filter), ..scan };
    let (some, every) = (scanned(scan, walk).stats, scanned(open, walk).stats);
    let pred = |r: ResultView| keeps(scan.filter, r.date);
    let kept = all.filter(pred);
    lemma_filtered(all, pred);
    assert forall|i: int| 0 <= i < kept.len() implies {
        &&& some.contains_key(#[trigger] kept[i].key())
        &&& some[kept[i].key()] == kept[i].tally()
        &&& kept[i].camera_label == scan.camera_label
    } by {
        let k = kept[i].key();
        let j = choose|j: int| 0 <= j < all.len() && all[j] == kept[i];
        assert(every.contains_key(all[j].key()));
        scan_counts_the_walk(scan, walk, k);
        scan_counts_the_walk(open, walk, k);
        lemma_sums_in_period(scan.filter, walk, k);
    }
    assert forall|k: Key| #[trigger] some.contains_key(k) implies exists|i: int|
        0 <= i < kept.len() && #[trigger] kept[i].key() == k by {
        scan_counts_the_walk(scan, walk, k);
        scan_counts_the_walk(open, walk, k);
        lemma_sums_in_period(scan.filter, walk, k);
        assert(every.contains_key(k));
        let j = choose|j: int| 0 <= j < all.len() && #[trigger] all[j].key() == k;
        assert(pred(all[j]));
        let i = choose|i: int| 0 <= i < kept.len() && kept[i] == all[j];
        assert(kept[i].key() == k);
    }
    listing_is_unique(list, kept, scan.camera_label, some);
}

} // verus!

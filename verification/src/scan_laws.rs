//! What holds of every scan.
use crate::date::{date_less, date_text, is_date, Ymd};
use crate::filter::{
    order_and_case_of_list_do_not_matter, same_extensions, EntryView, FilterView,
};
use crate::import_laws::{selected_paths, selected_size};
use crate::scan::{
    day_text, in_order, is_listing, key_less, key_less_irreflexive, key_less_total,
    key_less_transitive, lemma_insert, lemma_listed, lemma_update, listed, Key, ResultView,
    ScanView, Tally,
};
use crate::text::{
    digits, digits_order, power_of_ten, text_less, text_less_concat, text_less_irreflexive,
    text_less_transitive,
};
use vstd::prelude::*;

verus! {

// ---------------------------------------------------------------------------
// One listing
// ---------------------------------------------------------------------------

/// Tallies have one listing: that each occurs, and in which order, fixes the rows.
pub proof fn listing_is_unique(
    a: Seq<ResultView>,
    b: Seq<ResultView>,
    camera_label: Seq<char>,
    stats: Map<Key, Tally>,
)
    requires
        is_listing(a, camera_label, stats),
        is_listing(b, camera_label, stats),
    ensures
        a == b,
{
    lemma_listing_prefix(a, b, camera_label, stats, a.len());
    lemma_listing_prefix(b, a, camera_label, stats, b.len());
    assert(a =~= b);
}

/// The first `n` rows of a listing are the first rows of another.
proof fn lemma_listing_prefix(
    a: Seq<ResultView>,
    b: Seq<ResultView>,
    camera_label: Seq<char>,
    stats: Map<Key, Tally>,
    n: nat,
)
    requires
        is_listing(a, camera_label, stats),
        is_listing(b, camera_label, stats),
        n <= a.len(),
    ensures
        n <= b.len(),
        forall|i: int| 0 <= i < n ==> a[i] == b[i],
    decreases n,
{
    if n > 0 {
        let last = n - 1;
        lemma_listing_prefix(a, b, camera_label, stats, last as nat);
        let k = a[last].key();
        assert(stats.contains_key(k));
        let j = choose|j: int| 0 <= j < b.len() && #[trigger] b[j].key() == k;
        key_less_irreflexive(k);
        if j < last {
            assert(a[j] == b[j]);
            assert(key_less(a[j].key(), a[last].key()));
        }
        if j > last {
            let q = b[last].key();
            assert(stats.contains_key(q));
            let i = choose|i: int| 0 <= i < a.len() && #[trigger] a[i].key() == q;
            assert(key_less(b[last].key(), b[j].key()));
            if i < last {
                assert(a[i] == b[i]);
                assert(key_less(b[i].key(), b[last].key()));
                key_less_irreflexive(q);
            } else if i > last {
                assert(key_less(a[last].key(), a[i].key()));
                key_less_transitive(k, q, k);
            }
        }
        assert(j == last);
        assert(a[last] == b[last]);
    }
}

// ---------------------------------------------------------------------------
// Sums over a walk
// ---------------------------------------------------------------------------

/// The scan after the entries of a walk.
pub open spec fn scanned(scan: ScanView, walk: Seq<EntryView>) -> ScanView
    decreases walk.len(),
{
    if walk.len() == 0 {
        scan
    } else {
        scanned(scan, walk.drop_last()).with_entry(walk.last())
    }
}

/// Whether an entry counts under a key.
pub open spec fn counts_under(filter: FilterView, entry: EntryView, key: Key) -> bool {
    filter.selects(entry) && ScanView::key_of(entry) == key
}

/// How many entries of a walk count under a key.
pub open spec fn files_under(filter: FilterView, walk: Seq<EntryView>, key: Key) -> nat
    decreases walk.len(),
{
    if walk.len() == 0 {
        0
    } else {
        files_under(filter, walk.drop_last(), key) + if counts_under(filter, walk.last(), key) {
            1nat
        } else {
            0
        }
    }
}

/// The bytes of the entries of a walk that count under a key.
pub open spec fn bytes_under(filter: FilterView, walk: Seq<EntryView>, key: Key) -> nat
    decreases walk.len(),
{
    if walk.len() == 0 {
        0
    } else {
        bytes_under(filter, walk.drop_last(), key) + if counts_under(filter, walk.last(), key) {
            walk.last().metadata->Some_0.len
        } else {
            0
        }
    }
}

/// A scan tells, for each day and extension, how many files of the walk there are and
/// how many bytes they have, and leaves out what has none.
pub proof fn scan_counts_the_walk(scan: ScanView, walk: Seq<EntryView>, key: Key)
    requires
        scan.stats == Map::<Key, Tally>::empty(),
    ensures
        ({
            let after = scanned(scan, walk);
            let n = files_under(scan.filter, walk, key);
            &&& after.filter == scan.filter
            &&& after.camera_label == scan.camera_label
            &&& after.stats.contains_key(key) <==> n > 0
            &&& n > 0 ==> after.stats[key] == (n, bytes_under(scan.filter, walk, key))
            &&& n == 0 ==> bytes_under(scan.filter, walk, key) == 0
        }),
    decreases walk.len(),
{
    if walk.len() > 0 {
        scan_counts_the_walk(scan, walk.drop_last(), key);
    }
}

/// The order of the walk does not matter to a scan.
pub proof fn walk_order_does_not_matter(scan: ScanView, a: Seq<EntryView>, b: Seq<EntryView>)
    requires
        scan.stats == Map::<Key, Tally>::empty(),
        a.to_multiset() == b.to_multiset(),
    ensures
        scanned(scan, a) == scanned(scan, b),
{
    let x = scanned(scan, a);
    let y = scanned(scan, b);
    let any: Key = (seq![], seq![]);
    scan_counts_the_walk(scan, a, any);
    scan_counts_the_walk(scan, b, any);
    assert forall|k: Key| #[trigger]
        x.stats.dom().contains(k) == y.stats.dom().contains(k) by {
        scan_counts_the_walk(scan, a, k);
        scan_counts_the_walk(scan, b, k);
        lemma_sums_of_permutation(scan.filter, a, b, k);
    }
    assert forall|k: Key| #[trigger] x.stats.dom().contains(k) implies x.stats[k]
        == y.stats[k] by {
        scan_counts_the_walk(scan, a, k);
        scan_counts_the_walk(scan, b, k);
        lemma_sums_of_permutation(scan.filter, a, b, k);
    }
    assert(x.stats =~= y.stats);
}

/// Neither the order of the list of extensions, nor how often they occur in it, nor the
/// case of their ASCII letters matters to a scan: its rows are the same.
pub proof fn list_of_extensions_is_a_set_to_a_scan(
    a: ScanView,
    b: ScanView,
    walk: Seq<EntryView>,
    list: Seq<ResultView>,
    other: Seq<ResultView>,
)
    requires
        same_extensions(a.filter.extensions, b.filter.extensions),
        a.filter.start_date == b.filter.start_date,
        a.filter.end_date == b.filter.end_date,
        a.camera_label == b.camera_label,
        a.stats == b.stats,
        is_listing(list, a.camera_label, scanned(a, walk).stats),
        is_listing(other, b.camera_label, scanned(b, walk).stats),
    ensures
        scanned(a, walk).stats == scanned(b, walk).stats,
        list == other,
{
    lemma_same_stats(a, b, walk);
    listing_is_unique(list, other, a.camera_label, scanned(a, walk).stats);
}

/// Scans whose filters select the same count the same.
proof fn lemma_same_stats(a: ScanView, b: ScanView, walk: Seq<EntryView>)
    requires
        same_extensions(a.filter.extensions, b.filter.extensions),
        a.filter.start_date == b.filter.start_date,
        a.filter.end_date == b.filter.end_date,
        a.stats == b.stats,
    ensures
        scanned(a, walk).stats == scanned(b, walk).stats,
        scanned(a, walk).filter == a.filter,
        scanned(b, walk).filter == b.filter,
    decreases walk.len(),
{
    if walk.len() > 0 {
        lemma_same_stats(a, b, walk.drop_last());
        order_and_case_of_list_do_not_matter(a.filter, b.filter, walk.last());
    }
}

/// Nor do they matter to what an import copies.
pub proof fn list_of_extensions_is_a_set_to_an_import<P>(
    a: FilterView,
    b: FilterView,
    walk: Seq<(P, EntryView)>,
)
    requires
        same_extensions(a.extensions, b.extensions),
        a.start_date == b.start_date,
        a.end_date == b.end_date,
    ensures
        selected_paths(a, walk) == selected_paths(b, walk),
        selected_size(a, walk) == selected_size(b, walk),
    decreases walk.len(),
{
    if walk.len() > 0 {
        list_of_extensions_is_a_set_to_an_import(a, b, walk.drop_last());
        order_and_case_of_list_do_not_matter(a, b, walk.last().1);
    }
}

/// Entries in another order have the same sums.
proof fn lemma_sums_of_permutation(
    filter: FilterView,
    a: Seq<EntryView>,
    b: Seq<EntryView>,
    key: Key,
)
    requires
        a.to_multiset() == b.to_multiset(),
    ensures
        files_under(filter, a, key) == files_under(filter, b, key),
        bytes_under(filter, a, key) == bytes_under(filter, b, key),
    decreases a.len(),
{
    broadcast use vstd::seq_lib::group_to_multiset_ensures;

    assert(a.len() == a.to_multiset().len());
    assert(b.len() == b.to_multiset().len());
    if a.len() > 0 {
        let e = a.last();
        assert(a.contains(e));
        assert(a.to_multiset().count(e) > 0);
        assert(b.contains(e));
        let i = b.index_of(e);
        assert(b[i] == e);
        let rest = b.remove(i);
        assert(a.drop_last() =~= a.remove(a.len() - 1));
        assert(a.drop_last().to_multiset() =~= rest.to_multiset());
        lemma_sums_of_permutation(filter, a.drop_last(), rest, key);
        lemma_sums_without(filter, b, i, key);
    }
}

/// Taking one entry out takes its part off the sums.
proof fn lemma_sums_without(filter: FilterView, walk: Seq<EntryView>, i: int, key: Key)
    requires
        0 <= i < walk.len(),
    ensures
        files_under(filter, walk, key) == files_under(filter, walk.remove(i), key)
            + if counts_under(filter, walk[i], key) {
            1nat
        } else {
            0
        },
        bytes_under(filter, walk, key) == bytes_under(filter, walk.remove(i), key)
            + if counts_under(filter, walk[i], key) {
            walk[i].metadata->Some_0.len
        } else {
            0
        },
    decreases walk.len(),
{
    if i == walk.len() - 1 {
        assert(walk.remove(i) =~= walk.drop_last());
    } else {
        lemma_sums_without(filter, walk.drop_last(), i, key);
        assert(walk.remove(i).drop_last() =~= walk.drop_last().remove(i));
        assert(walk.remove(i).last() == walk.last());
    }
}

// ---------------------------------------------------------------------------
// Scan and import
// ---------------------------------------------------------------------------

/// The files that rows tell of.
pub open spec fn total_count(list: Seq<ResultView>) -> nat
    decreases list.len(),
{
    if list.len() == 0 {
        0
    } else {
        total_count(list.drop_last()) + list.last().count
    }
}

/// The bytes that rows tell of.
pub open spec fn total_bytes(list: Seq<ResultView>) -> nat
    decreases list.len(),
{
    if list.len() == 0 {
        0
    } else {
        total_bytes(list.drop_last()) + list.last().total_size
    }
}

/// A scan and an import that walk the same entries with the same filter agree: the
/// rows of the scan tell of as many files and bytes as the import copies.
pub proof fn scan_agrees_with_import<P>(
    scan: ScanView,
    walk: Seq<(P, EntryView)>,
    list: Seq<ResultView>,
)
    requires
        scan.stats == Map::<Key, Tally>::empty(),
        is_listing(
            list,
            scan.camera_label,
            scanned(scan, walk.map_values(|w: (P, EntryView)| w.1)).stats,
        ),
    ensures
        total_count(list) == selected_paths(scan.filter, walk).len(),
        total_bytes(list) == selected_size(scan.filter, walk),
{
    let other = lemma_some_listing(scan, walk);
    listing_is_unique(
        list,
        other,
        scan.camera_label,
        scanned(scan, walk.map_values(|w: (P, EntryView)| w.1)).stats,
    );
}

/// Rows in order list what they list.
proof fn lemma_is_listing(list: Seq<ResultView>, camera_label: Seq<char>)
    requires
        in_order(list),
        forall|i: int| 0 <= i < list.len() ==> (#[trigger] list[i]).camera_label == camera_label,
    ensures
        is_listing(list, camera_label, listed(list)),
{
    assert forall|i: int| 0 <= i < list.len() implies {
        &&& listed(list).contains_key(#[trigger] list[i].key())
        &&& listed(list)[list[i].key()] == list[i].tally()
        &&& list[i].camera_label == camera_label
    } by {
        lemma_listed(list, i);
    }
}

/// A listing of a scan, with the sums of the import.
proof fn lemma_some_listing<P>(scan: ScanView, walk: Seq<(P, EntryView)>) -> (list: Seq<
    ResultView,
>)
    requires
        scan.stats == Map::<Key, Tally>::empty(),
    ensures
        in_order(list),
        forall|i: int|
            0 <= i < list.len() ==> (#[trigger] list[i]).camera_label == scan.camera_label,
        listed(list) == scanned(scan, walk.map_values(|w: (P, EntryView)| w.1)).stats,
        is_listing(
            list,
            scan.camera_label,
            scanned(scan, walk.map_values(|w: (P, EntryView)| w.1)).stats,
        ),
        total_count(list) == selected_paths(scan.filter, walk).len(),
        total_bytes(list) == selected_size(scan.filter, walk),
    decreases walk.len(),
{
    let entries = walk.map_values(|w: (P, EntryView)| w.1);
    if walk.len() == 0 {
        let list = Seq::<ResultView>::empty();
        assert(listed(list) =~= Map::empty());
        lemma_is_listing(list, scan.camera_label);
        list
    } else {
        let before = lemma_some_listing(scan, walk.drop_last());
        assert(entries.drop_last() =~= walk.drop_last().map_values(|w: (P, EntryView)| w.1));
        let earlier = scanned(scan, entries.drop_last());
        let e = walk.last().1;
        scan_counts_the_walk(scan, entries.drop_last(), (seq![], seq![]));
        if !scan.filter.selects(e) {
            before
        } else {
            let key = ScanView::key_of(e);
            let len = e.metadata->Some_0.len;
            let list = if earlier.stats.contains_key(key) {
                let i = choose|i: int| 0 <= i < before.len() && #[trigger] before[i].key() == key;
                lemma_listed(before, i);
                let row = ResultView {
                    count: before[i].count + 1,
                    total_size: before[i].total_size + len,
                    ..before[i]
                };
                lemma_update(before, i, row);
                lemma_totals_update(before, i, row);
                before.update(i, row)
            } else {
                let row = ResultView {
                    camera_label: scan.camera_label,
                    date: key.0,
                    extension: key.1,
                    count: 1,
                    total_size: len,
                };
                let at = lemma_place(before, key);
                lemma_insert(before, at, row);
                lemma_totals_insert(before, at, row);
                before.insert(at, row)
            };
            lemma_is_listing(list, scan.camera_label);
            list
        }
    }
}

/// Where a key belongs among rows that do not have it.
proof fn lemma_place(list: Seq<ResultView>, key: Key) -> (at: int)
    requires
        in_order(list),
        !listed(list).contains_key(key),
    ensures
        0 <= at <= list.len(),
        forall|i: int| 0 <= i < at ==> key_less(#[trigger] list[i].key(), key),
        forall|i: int| at <= i < list.len() ==> key_less(key, #[trigger] list[i].key()),
    decreases list.len(),
{
    if list.len() == 0 {
        0
    } else {
        let last = list.len() - 1;
        lemma_listed(list, last);
        key_less_total(key, list[last].key());
        if key_less(list[last].key(), key) {
            assert forall|i: int| 0 <= i < list.len() implies key_less(
                #[trigger] list[i].key(),
                key,
            ) by {
                if i < last {
                    key_less_transitive(list[i].key(), list[last].key(), key);
                }
            }
            list.len() as int
        } else {
            let shorter = list.drop_last();
            if listed(shorter).contains_key(key) {
                let i = choose|i: int| 0 <= i < shorter.len() && #[trigger] shorter[i].key() == key;
                lemma_listed(list, i);
            }
            let at = lemma_place(shorter, key);
            assert forall|i: int| at <= i < list.len() implies key_less(
                key,
                #[trigger] list[i].key(),
            ) by {
                if i < last {
                    assert(list[i] == shorter[i]);
                }
            }
            assert forall|i: int| 0 <= i < at implies key_less(#[trigger] list[i].key(), key) by {
                assert(list[i] == shorter[i]);
            }
            at
        }
    }
}

/// A row in the place of another changes the sums by the difference.
proof fn lemma_totals_update(list: Seq<ResultView>, i: int, row: ResultView)
    requires
        0 <= i < list.len(),
    ensures
        total_count(list.update(i, row)) == total_count(list) - list[i].count + row.count,
        total_bytes(list.update(i, row)) == total_bytes(list) - list[i].total_size
            + row.total_size,
    decreases list.len(),
{
    if i == list.len() - 1 {
        assert(list.update(i, row).drop_last() =~= list.drop_last());
    } else {
        lemma_totals_update(list.drop_last(), i, row);
        assert(list.update(i, row).drop_last() =~= list.drop_last().update(i, row));
    }
}

/// One more row adds its numbers.
proof fn lemma_totals_insert(list: Seq<ResultView>, at: int, row: ResultView)
    requires
        0 <= at <= list.len(),
    ensures
        total_count(list.insert(at, row)) == total_count(list) + row.count,
        total_bytes(list.insert(at, row)) == total_bytes(list) + row.total_size,
    decreases list.len(),
{
    if at == list.len() {
        assert(list.insert(at, row).drop_last() =~= list);
    } else {
        lemma_totals_insert(list.drop_last(), at, row);
        assert(list.insert(at, row).drop_last() =~= list.drop_last().insert(at, row));
    }
}

// ---------------------------------------------------------------------------
// Rows by day
// ---------------------------------------------------------------------------

/// In the years from 0 to 9999 the texts of days are ordered as the days are.
pub proof fn days_are_in_order(a: Ymd, b: Ymd)
    requires
        is_date(a),
        is_date(b),
        0 <= a.0 <= 9999,
        0 <= b.0 <= 9999,
    ensures
        text_less(date_text(a), date_text(b)) <==> date_less(a, b),
        date_text(a) == date_text(b) <==> a == b,
{
    reveal_with_fuel(power_of_ten, 5);
    let hyphen = seq!['-'];
    let (ya, yb) = (digits(4, a.0 as nat), digits(4, b.0 as nat));
    let (ma, mb) = (digits(2, a.1 as nat), digits(2, b.1 as nat));
    let (da, db) = (digits(2, a.2 as nat), digits(2, b.2 as nat));
    digits_order(4, a.0 as nat, b.0 as nat);
    digits_order(2, a.1 as nat, b.1 as nat);
    digits_order(2, a.2 as nat, b.2 as nat);
    text_less_irreflexive(hyphen);
    text_less_concat(ya, hyphen, yb, hyphen);
    text_less_concat(ya + hyphen, ma, yb + hyphen, mb);
    text_less_concat(ya + hyphen + ma, hyphen, yb + hyphen + mb, hyphen);
    text_less_concat(ya + hyphen + ma + hyphen, da, yb + hyphen + mb + hyphen, db);
    let (ta, tb) = (date_text(a), date_text(b));
    assert(ya =~= ta.subrange(0, 4) && yb =~= tb.subrange(0, 4));
    assert(ma =~= ta.subrange(5, 7) && mb =~= tb.subrange(5, 7));
    assert(da =~= ta.subrange(8, 10) && db =~= tb.subrange(8, 10));
    assert((ya + hyphen).subrange(0, 4) =~= ya && (yb + hyphen).subrange(0, 4) =~= yb);
    assert((ya + hyphen + ma).subrange(0, 4) =~= ya && (yb + hyphen + mb).subrange(0, 4) =~= yb);
    assert((ya + hyphen + ma).subrange(5, 7) =~= ma && (yb + hyphen + mb).subrange(5, 7) =~= mb);
    let (pa, pb) = (ya + hyphen + ma + hyphen, yb + hyphen + mb + hyphen);
    assert(pa.subrange(0, 4) =~= ya && pb.subrange(0, 4) =~= yb);
    assert(pa.subrange(5, 7) =~= ma && pb.subrange(5, 7) =~= mb);
}

/// A day that is not known comes after those in the years from 0 to 9999.
pub proof fn unknown_day_is_last(a: Ymd)
    requires
        is_date(a),
        0 <= a.0 <= 9999,
    ensures
        text_less(day_text(Some(a)), day_text(None)),
{
    reveal_with_fuel(power_of_ten, 5);
    reveal_with_fuel(digits, 5);
    reveal_strlit("Unknown");
    digits_order(4, a.0 as nat, 0);
    assert(date_text(a)[0] == digits(4, a.0 as nat)[0]);
}

/// The rows of a scan are in the order of their days, and the rows of one day in the
/// order of their extensions, where the days lie in the years from 0 to 9999.
pub proof fn rows_are_by_day_then_extension(
    list: Seq<ResultView>,
    camera_label: Seq<char>,
    stats: Map<Key, Tally>,
    i: int,
    j: int,
    a: Option<Ymd>,
    b: Option<Ymd>,
)
    requires
        is_listing(list, camera_label, stats),
        0 <= i < j < list.len(),
        list[i].date == day_text(a),
        list[j].date == day_text(b),
        a matches Some(d) ==> is_date(d) && 0 <= d.0 <= 9999,
        b matches Some(d) ==> is_date(d) && 0 <= d.0 <= 9999,
    ensures
        match (a, b) {
            (Some(d), Some(e)) => date_less(d, e) || (d == e && text_less(
                list[i].extension,
                list[j].extension,
            )),
            (Some(_), None) => true,
            (None, Some(_)) => false,
            (None, None) => text_less(list[i].extension, list[j].extension),
        },
{
    assert(key_less(list[i].key(), list[j].key()));
    text_less_irreflexive(list[i].date);
    if let (Some(d), Some(e)) = (a, b) {
        days_are_in_order(d, e);
    }
    if let (None, Some(e)) = (a, b) {
        unknown_day_is_last(e);
        text_less_transitive(day_text(None), day_text(b), day_text(None));
    }
}

} // verus!

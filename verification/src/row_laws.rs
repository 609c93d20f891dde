//! What the rows of a scan tell, told of the functions that run it: from the values that
//! it is begun with and the entries that it is handed, to its rows.
use crate::date::{date_text, Date};
use crate::filter::{day, Entry, EntryView, Filter, FilterView};
use crate::scan::{
    key_less, lowercase, rows, start_scan, Key, ScanEvent, ScanJob, ScanMessage, ScanTurn,
    ScanView,
};
use crate::scan_laws::{bytes_under, counts_under, files_under, scan_counts_the_walk, scanned};
use crate::selection_laws::{is_wanted, lemma_wanted, same_letters, small_letters_keep_the_rest};
use crate::text::{ascii_lower, texts};
use crate::text_laws::{is_before, texts_are_in_dictionary_order};
use vstd::prelude::*;
use vstd::utf8::is_ascii_chars;

verus! {

/// Whether a scan goes on from a job to another with an entry of the walk.
pub open spec fn goes_on(before: ScanJob, entry: Entry, after: ScanJob) -> bool {
    call_ensures(
        ScanJob::step,
        (before, ScanEvent::Walked { entry }),
        ScanTurn::Next { job: after },
    )
}

/// Whether jobs are those of a walk over entries.
pub open spec fn is_walk(jobs: Seq<ScanJob>, entries: Seq<Entry>) -> bool {
    &&& jobs.len() == entries.len() + 1
    &&& forall|k: int|
        0 <= k < entries.len() ==> goes_on(#[trigger] jobs[k], entries[k], jobs[k + 1])
}

/// Whether an entry belongs to the row of a day and an extension: it was last changed on
/// that day, or on one that is not known, and its own extension is that one once it is
/// in lower case.
pub open spec fn belongs(entry: Entry, date: Seq<char>, extension: Seq<char>) -> bool {
    &&& match entry.metadata->Some_0.modified {
        Some(d) => date == date_text(d@),
        None => date == "Unknown"@,
    }
    &&& extension == lowercase(entry.extension->Some_0@)
}

/// Whether an entry is wanted, and belongs to the row of a day and an extension.
pub open spec fn counts(
    extensions: Vec<String>,
    first: Option<Date>,
    last: Option<Date>,
    entry: Entry,
    date: Seq<char>,
    extension: Seq<char>,
) -> bool {
    is_wanted(extensions, first, last, entry) && belongs(entry, date, extension)
}

/// How many entries count for a row, and how many bytes they have.
pub open spec fn tally(
    extensions: Vec<String>,
    first: Option<Date>,
    last: Option<Date>,
    entries: Seq<Entry>,
    date: Seq<char>,
    extension: Seq<char>,
) -> (nat, nat)
    decreases entries.len(),
{
    if entries.len() == 0 {
        (0, 0)
    } else {
        let before = tally(extensions, first, last, entries.drop_last(), date, extension);
        if counts(extensions, first, last, entries.last(), date, extension) {
            (before.0 + 1, before.1 + entries.last().metadata->Some_0.len as nat)
        } else {
            before
        }
    }
}

/// The views of entries.
spec fn views(entries: Seq<Entry>) -> Seq<EntryView> {
    entries.map_values(|e: Entry| e@)
}

/// The jobs of a walk count its entries.
proof fn lemma_walk(jobs: Seq<ScanJob>, entries: Seq<Entry>)
    requires
        is_walk(jobs, entries),
    ensures
        jobs.last()@ == scanned(jobs[0]@, views(entries)),
    decreases entries.len(),
{
    if entries.len() > 0 {
        let n = entries.len() - 1;
        let (j, e) = (jobs.drop_last(), entries.drop_last());
        assert forall|k: int| 0 <= k < e.len() implies goes_on(#[trigger] j[k], e[k], j[k + 1]) by {
            assert(goes_on(jobs[k], entries[k], jobs[k + 1]));
        }
        lemma_walk(j, e);
        assert(views(entries).drop_last() =~= views(e));
        assert(goes_on(jobs[n], entries[n], jobs[n + 1]));
    }
}

/// Under the key of a row, as many files and bytes are counted as count for it.
proof fn lemma_tally(
    extensions: Vec<String>,
    first: Option<Date>,
    last: Option<Date>,
    entries: Seq<Entry>,
    key: Key,
)
    ensures
        ({
            let filter = FilterView {
                extensions: texts(extensions@),
                start_date: day(first),
                end_date: day(last),
            };
            tally(extensions, first, last, entries, key.0, key.1) == (
                files_under(filter, views(entries), key),
                bytes_under(filter, views(entries), key),
            )
        }),
    decreases entries.len(),
{
    if entries.len() > 0 {
        let e = entries.last();
        lemma_tally(extensions, first, last, entries.drop_last(), key);
        assert(views(entries).drop_last() =~= views(entries.drop_last()));
        lemma_wanted(extensions, first, last, e);
        let filter = FilterView {
            extensions: texts(extensions@),
            start_date: day(first),
            end_date: day(last),
        };
        assert(counts_under(filter, e@, key) == counts(
            extensions,
            first,
            last,
            e,
            key.0,
            key.1,
        ));
    }
}

/// A scan begins with the message that it scans, and with nothing counted.
pub proof fn scan_begins(
    camera_label: String,
    extensions: Vec<String>,
    start_date: Option<Date>,
    end_date: Option<Date>,
    begun: (ScanJob, ScanMessage),
)
    requires
        call_ensures(start_scan, (camera_label, extensions, start_date, end_date), begun),
    ensures
        !begun.1.is_done,
        begun.1.status@ == "Scanning..."@,
        begun.1.results@.len() == 0,
        begun.0@.camera_label == camera_label@,
        begun.0@.stats.dom() =~= Set::empty(),
{
}

/// A row of a scan tells of a day and an extension how many files the walk has that are
/// wanted, were changed on that day, and whose own extension is that one in lower case;
/// and how many bytes they have. It has the label of the camera.
pub proof fn rows_tell_of_their_files(
    camera_label: String,
    extensions: Vec<String>,
    start_date: Option<Date>,
    end_date: Option<Date>,
    begun: (ScanJob, ScanMessage),
    jobs: Seq<ScanJob>,
    entries: Seq<Entry>,
    message: ScanMessage,
    i: int,
)
    requires
        call_ensures(start_scan, (camera_label, extensions, start_date, end_date), begun),
        is_walk(jobs, entries),
        jobs[0] == begun.0,
        call_ensures(
            ScanJob::step,
            (jobs.last(), ScanEvent::WalkEnded),
            ScanTurn::Stop { message: Some(message) },
        ),
        0 <= i < message.results@.len(),
    ensures
        ({
            let row = message.results@[i];
            &&& row.camera_label@ == camera_label@
            &&& row.count > 0
            &&& (row.count as nat, row.total_size as nat) == tally(
                extensions,
                start_date,
                end_date,
                entries,
                row.date@,
                row.extension@,
            )
        }),
{
    let row = message.results@[i];
    let key: Key = (row.date@, row.extension@);
    lemma_walk(jobs, entries);
    lemma_tally(extensions, start_date, end_date, entries, key);
    scan_counts_the_walk(jobs[0]@, views(entries), key);
    assert(rows(message.results@)[i] == row@);
    assert(rows(message.results@)[i].key() == key);
}

/// Every wanted file of the walk has a row that it belongs to.
pub proof fn every_file_has_a_row(
    camera_label: String,
    extensions: Vec<String>,
    start_date: Option<Date>,
    end_date: Option<Date>,
    begun: (ScanJob, ScanMessage),
    jobs: Seq<ScanJob>,
    entries: Seq<Entry>,
    message: ScanMessage,
    k: int,
)
    requires
        call_ensures(start_scan, (camera_label, extensions, start_date, end_date), begun),
        is_walk(jobs, entries),
        jobs[0] == begun.0,
        call_ensures(
            ScanJob::step,
            (jobs.last(), ScanEvent::WalkEnded),
            ScanTurn::Stop { message: Some(message) },
        ),
        0 <= k < entries.len(),
        is_wanted(extensions, start_date, end_date, entries[k]),
    ensures
        exists|i: int|
            0 <= i < message.results@.len() && belongs(
                entries[k],
                (#[trigger] message.results@[i]).date@,
                message.results@[i].extension@,
            ),
{
    let entry = entries[k];
    let date = match entry.metadata->Some_0.modified {
        Some(d) => date_text(d@),
        None => "Unknown"@,
    };
    let key: Key = (date, lowercase(entry.extension->Some_0@));
    lemma_counted(extensions, start_date, end_date, entries, k, key);
    lemma_walk(jobs, entries);
    lemma_tally(extensions, start_date, end_date, entries, key);
    scan_counts_the_walk(jobs[0]@, views(entries), key);
    let list = rows(message.results@);
    assert(jobs.last()@.stats.contains_key(key));
    let i = choose|i: int| 0 <= i < list.len() && #[trigger] list[i].key() == key;
    assert(list[i] == message.results@[i]@);
    assert(belongs(entry, message.results@[i].date@, message.results@[i].extension@));
}

/// What counts is counted.
proof fn lemma_counted(
    extensions: Vec<String>,
    first: Option<Date>,
    last: Option<Date>,
    entries: Seq<Entry>,
    k: int,
    key: Key,
)
    requires
        0 <= k < entries.len(),
        counts(extensions, first, last, entries[k], key.0, key.1),
    ensures
        tally(extensions, first, last, entries, key.0, key.1).0 > 0,
    decreases entries.len(),
{
    if k < entries.len() - 1 {
        lemma_counted(extensions, first, last, entries.drop_last(), k, key);
    }
}

/// The rows of a scan are in the order of their days' texts, and those of one day in the
/// order of their extensions; no two are of one day and one extension. The scan is done.
pub proof fn rows_are_in_order(job: ScanJob, turn: ScanTurn)
    requires
        call_ensures(ScanJob::step, (job, ScanEvent::WalkEnded), turn),
    ensures
        turn matches ScanTurn::Stop { message: Some(m) } && m.is_done && m.status@ == "Done"@
            && forall|i: int, j: int|
            0 <= i < j < m.results@.len() ==> is_before(
                (#[trigger] m.results@[i]).date@,
                (#[trigger] m.results@[j]).date@,
            ) || (m.results@[i].date@ == m.results@[j].date@ && is_before(
                m.results@[i].extension@,
                m.results@[j].extension@,
            )),
{
    let m = turn->message->Some_0;
    let list = rows(m.results@);
    assert forall|i: int, j: int| 0 <= i < j < m.results@.len() implies is_before(
        (#[trigger] m.results@[i]).date@,
        (#[trigger] m.results@[j]).date@,
    ) || (m.results@[i].date@ == m.results@[j].date@ && is_before(
        m.results@[i].extension@,
        m.results@[j].extension@,
    )) by {
        assert(list[i] == m.results@[i]@ && list[j] == m.results@[j]@);
        assert(key_less(list[i].key(), list[j].key()));
        texts_are_in_dictionary_order(m.results@[i].date@, m.results@[j].date@);
        texts_are_in_dictionary_order(m.results@[i].extension@, m.results@[j].extension@);
    }
}

/// Files whose extensions are in ASCII belong to one row only if these differ in nothing
/// but case, and the row has the extension in small letters.
pub proof fn rows_do_not_mix_extensions(
    before: ScanJob,
    entry: Entry,
    after: ScanJob,
    date: Seq<char>,
    extension: Seq<char>,
)
    requires
        goes_on(before, entry, after),
        before@.filter.selects(entry@),
        is_ascii_chars(entry.extension->Some_0@),
        belongs(entry, date, extension),
    ensures
        same_letters(extension, entry.extension->Some_0@),
        forall|i: int| 0 <= i < extension.len() ==> !('A' <= #[trigger] extension[i] <= 'Z'),
{
    let own = entry.extension->Some_0@;
    assert(entry@.extension == Some(own));
    assert(extension == ascii_lower(own));
    small_letters_keep_the_rest(own, extension);
    small_letters_keep_the_rest(extension, own);
    assert forall|i: int| 0 <= i < extension.len() implies ascii_lower(extension)[i] == ascii_lower(
        own,
    )[i] by {}
    assert(ascii_lower(extension) =~= ascii_lower(own));
}

/// Two files whose extensions are in ASCII are counted in one row only if these differ in
/// nothing but case.
pub proof fn files_of_a_row_share_their_extension(
    a: ScanJob,
    one: Entry,
    after_a: ScanJob,
    b: ScanJob,
    other: Entry,
    after_b: ScanJob,
    date: Seq<char>,
    extension: Seq<char>,
)
    requires
        goes_on(a, one, after_a),
        a@.filter.selects(one@),
        is_ascii_chars(one.extension->Some_0@),
        belongs(one, date, extension),
        goes_on(b, other, after_b),
        b@.filter.selects(other@),
        is_ascii_chars(other.extension->Some_0@),
        belongs(other, date, extension),
    ensures
        same_letters(one.extension->Some_0@, other.extension->Some_0@),
{
    let (x, y) = (one.extension->Some_0@, other.extension->Some_0@);
    rows_do_not_mix_extensions(a, one, after_a, date, extension);
    rows_do_not_mix_extensions(b, other, after_b, date, extension);
    small_letters_keep_the_rest(extension, x);
    small_letters_keep_the_rest(extension, y);
    small_letters_keep_the_rest(x, y);
}

/// A scan tells its filter.
pub proof fn scans_tell_their_filter(job: ScanJob, filter: &Filter)
    requires
        call_ensures(ScanJob::filter, (&job,), filter),
    ensures
        filter@ == job@.filter,
{
}

/// A file that is counted adds one and its bytes to its day and extension, and nothing
/// elsewhere; whether it can be is a matter of the machine's integers.
pub proof fn counted_files_add_up(
    job: ScanJob,
    date: String,
    extension: String,
    len: u64,
    can: bool,
    after: ScanJob,
    key: Key,
)
    requires
        call_ensures(ScanJob::can_count, (&job, &date, &extension, len), can),
        call_ensures(ScanJob::add, (job, date, extension, len), after),
    ensures
        ({
            let own: Key = (date@, extension@);
            let (count, size) = if job@.stats.contains_key(own) {
                job@.stats[own]
            } else {
                (0, 0)
            };
            &&& can == (!job@.stats.contains_key(own) || (count + 1 <= usize::MAX && size + len
                <= u64::MAX))
            &&& after@.stats.contains_key(own) && after@.stats[own] == (
                (count + 1) as nat,
                (size + len) as nat,
            )
            &&& key != own ==> after@.stats.contains_key(key) == job@.stats.contains_key(key) && (
            job@.stats.contains_key(key) ==> after@.stats[key] == job@.stats[key])
        }),
        after@.camera_label == job@.camera_label,
        after@.filter == job@.filter,
{
}

/// A scan that is cancelled stops without a word; one goes on with every entry, unless a
/// count or a sum does not fit the machine's integers.
pub proof fn scan_goes_on(job: ScanJob, event: ScanEvent, turn: ScanTurn)
    requires
        call_ensures(ScanJob::step, (job, event), turn),
    ensures
        event is Cancelled ==> turn == (ScanTurn::Stop { message: None }),
        event is Walked ==> turn is Next || turn is Overflow,
        turn is Overflow ==> {
            &&& event matches ScanEvent::Walked { entry }
            &&& entry.metadata is Some
            &&& exists|key: Key| #[trigger]
                job@.stats.contains_key(key) && (job@.stats[key].0 >= usize::MAX
                    || job@.stats[key].1 + entry.metadata->Some_0.len > u64::MAX)
        },
{
    if let ScanEvent::Walked { entry } = event {
        if turn is Overflow {
            let key = ScanView::key_of(entry@);
            assert(job@.stats.contains_key(key));
        }
    }
}

} // verus!

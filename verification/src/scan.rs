//! What a source holds: how many files, and how many bytes, for each day and
//! extension.
use crate::date::{date_text, Date};
use crate::filter::{day, Entry, EntryView, Filter, FilterView};
use crate::text::{
    ascii_lower, comes_before, text_less, text_less_irreflexive, text_less_total,
    text_less_transitive, texts,
};
use vstd::prelude::*;
use vstd::utf8::is_ascii_chars;

verus! {

/// The files of one day and one extension in a source.
#[derive(Clone, Debug, PartialEq)]
pub struct ScanResult {
    pub camera_label: String,
    pub date: String,
    pub extension: String,
    pub count: usize,
    pub total_size: u64,
}

/// The files of one day and one extension, in texts and numbers.
pub struct ResultView {
    pub camera_label: Seq<char>,
    pub date: Seq<char>,
    pub extension: Seq<char>,
    pub count: nat,
    pub total_size: nat,
}

impl View for ScanResult {
    type V = ResultView;

    open spec fn view(&self) -> ResultView {
        ResultView {
            camera_label: self.camera_label@,
            date: self.date@,
            extension: self.extension@,
            count: self.count as nat,
            total_size: self.total_size as nat,
        }
    }
}

/// The views of results.
pub open spec fn rows(results: Seq<ScanResult>) -> Seq<ResultView> {
    results.map_values(|r: ScanResult| r@)
}

/// How a scan stands.
#[derive(Debug)]
pub struct ScanMessage {
    pub is_done: bool,
    pub status: String,
    pub results: Vec<ScanResult>,
}

/// The day and the extension that files are counted under.
pub type Key = (Seq<char>, Seq<char>);

/// How many files there are, and how many bytes.
pub type Tally = (nat, nat);

/// The order of results: by day, then by extension.
pub open spec fn key_less(a: Key, b: Key) -> bool {
    text_less(a.0, b.0) || (a.0 == b.0 && text_less(a.1, b.1))
}

/// No key comes before itself.
pub proof fn key_less_irreflexive(a: Key)
    ensures
        !key_less(a, a),
{
    text_less_irreflexive(a.0);
    text_less_irreflexive(a.1);
}

/// What comes before a key comes before what that key comes before.
pub proof fn key_less_transitive(a: Key, b: Key, c: Key)
    requires
        key_less(a, b),
        key_less(b, c),
    ensures
        key_less(a, c),
{
    if text_less(a.0, b.0) && text_less(b.0, c.0) {
        text_less_transitive(a.0, b.0, c.0);
    } else if a.0 == b.0 && b.0 == c.0 {
        text_less_transitive(a.1, b.1, c.1);
    }
}

/// Of two keys that differ, one comes before the other.
pub proof fn key_less_total(a: Key, b: Key)
    ensures
        a == b || key_less(a, b) || key_less(b, a),
{
    text_less_total(a.0, b.0);
    text_less_total(a.1, b.1);
}

impl ResultView {
    /// The day and the extension.
    pub open spec fn key(self) -> Key {
        (self.date, self.extension)
    }

    /// The count and the bytes.
    pub open spec fn tally(self) -> Tally {
        (self.count, self.total_size)
    }
}

/// Whether rows are strictly in the order of their keys.
pub open spec fn in_order(list: Seq<ResultView>) -> bool {
    forall|i: int, j: int|
        0 <= i < j < list.len() ==> key_less(#[trigger] list[i].key(), #[trigger] list[j].key())
}

/// Whether rows list tallies: each once, in the order of the keys, under a camera.
pub open spec fn is_listing(
    list: Seq<ResultView>,
    camera_label: Seq<char>,
    stats: Map<Key, Tally>,
) -> bool {
    &&& in_order(list)
    &&& forall|i: int|
        0 <= i < list.len() ==> {
            &&& stats.contains_key(#[trigger] list[i].key())
            &&& stats[list[i].key()] == list[i].tally()
            &&& list[i].camera_label == camera_label
        }
    &&& forall|k: Key| #[trigger]
        stats.contains_key(k) ==> exists|i: int| 0 <= i < list.len() && #[trigger] list[i].key() == k
}

/// The tallies that rows list.
pub open spec fn listed(list: Seq<ResultView>) -> Map<Key, Tally> {
    Map::new(
        |k: Key| exists|i: int| 0 <= i < list.len() && #[trigger] list[i].key() == k,
        |k: Key|
            list[choose|i: int| 0 <= i < list.len() && #[trigger] list[i].key() == k].tally(),
    )
}

/// Rows in order list each of their tallies.
pub proof fn lemma_listed(list: Seq<ResultView>, i: int)
    requires
        in_order(list),
        0 <= i < list.len(),
    ensures
        listed(list).contains_key(list[i].key()),
        listed(list)[list[i].key()] == list[i].tally(),
{
    let k = list[i].key();
    let j = choose|j: int| 0 <= j < list.len() && #[trigger] list[j].key() == k;
    key_less_irreflexive(k);
}

/// A row between those before and those after its key adds its tally.
pub proof fn lemma_insert(list: Seq<ResultView>, at: int, row: ResultView)
    requires
        in_order(list),
        0 <= at <= list.len(),
        forall|i: int| 0 <= i < at ==> key_less(#[trigger] list[i].key(), row.key()),
        forall|i: int| at <= i < list.len() ==> key_less(row.key(), #[trigger] list[i].key()),
    ensures
        in_order(list.insert(at, row)),
        !listed(list).contains_key(row.key()),
        listed(list.insert(at, row)) == listed(list).insert(row.key(), row.tally()),
{
    let k = row.key();
    let more = list.insert(at, row);
    key_less_irreflexive(k);
    assert forall|i: int, j: int| 0 <= i < j < more.len() implies key_less(
        #[trigger] more[i].key(),
        #[trigger] more[j].key(),
    ) by {
        let a = if i < at {
            i
        } else {
            i - 1
        };
        let b = if j < at {
            j
        } else {
            j - 1
        };
        if i != at && j != at {
            assert(more[i] == list[a] && more[j] == list[b]);
        } else if i == at {
            assert(more[j] == list[b]);
        } else {
            assert(more[i] == list[a]);
        }
    }
    lemma_listed(more, at);
    assert forall|q: Key| #[trigger]
        listed(more).contains_key(q) == listed(list).insert(k, row.tally()).contains_key(q) && (
        listed(more).contains_key(q) ==> listed(more)[q] == listed(list).insert(k, row.tally())[q])
     by {
        if listed(list).contains_key(q) {
            let i = choose|i: int| 0 <= i < list.len() && #[trigger] list[i].key() == q;
            lemma_listed(list, i);
            let j = if i < at {
                i
            } else {
                i + 1
            };
            assert(more[j] == list[i]);
            lemma_listed(more, j);
        }
        if listed(more).contains_key(q) && q != k {
            let j = choose|j: int| 0 <= j < more.len() && #[trigger] more[j].key() == q;
            let i = if j < at {
                j
            } else {
                j - 1
            };
            assert(more[j] == list[i]);
            lemma_listed(list, i);
        }
    }
    assert(listed(more) =~= listed(list).insert(k, row.tally()));
}

/// A row in the place of one with the same key replaces its tally.
pub proof fn lemma_update(list: Seq<ResultView>, at: int, row: ResultView)
    requires
        in_order(list),
        0 <= at < list.len(),
        row.key() == list[at].key(),
    ensures
        in_order(list.update(at, row)),
        listed(list.update(at, row)) == listed(list).insert(row.key(), row.tally()),
{
    let k = row.key();
    let new = list.update(at, row);
    assert forall|i: int, j: int| 0 <= i < j < new.len() implies key_less(
        #[trigger] new[i].key(),
        #[trigger] new[j].key(),
    ) by {
        assert(new[i].key() == list[i].key());
        assert(new[j].key() == list[j].key());
    }
    lemma_listed(new, at);
    assert forall|q: Key| #[trigger]
        listed(new).contains_key(q) == listed(list).insert(k, row.tally()).contains_key(q) && (
        listed(new).contains_key(q) ==> listed(new)[q] == listed(list).insert(k, row.tally())[q])
     by {
        if listed(list).contains_key(q) {
            let i = choose|i: int| 0 <= i < list.len() && #[trigger] list[i].key() == q;
            lemma_listed(list, i);
            assert(new[i].key() == q);
            lemma_listed(new, i);
        }
        if listed(new).contains_key(q) && q != k {
            let j = choose|j: int| 0 <= j < new.len() && #[trigger] new[j].key() == q;
            assert(new[j] == list[j]);
            lemma_listed(list, j);
        }
    }
    assert(listed(new) =~= listed(list).insert(k, row.tally()));
}

/// A scan of one source.
#[derive(Debug)]
pub struct ScanJob {
    camera_label: String,
    filter: Filter,
    /// What has been counted, in the order of the keys.
    results: Vec<ScanResult>,
}

/// A scan of one source, in texts and numbers.
pub struct ScanView {
    pub camera_label: Seq<char>,
    pub filter: FilterView,
    pub stats: Map<Key, Tally>,
}

impl View for ScanJob {
    type V = ScanView;

    closed spec fn view(&self) -> ScanView {
        ScanView {
            camera_label: self.camera_label@,
            filter: self.filter@,
            stats: listed(rows(self.results@)),
        }
    }
}

/// The lower-case form of a text, as `str::to_lowercase` gives it.
pub uninterp spec fn lowercase(s: Seq<char>) -> Seq<char>;

/// Calls `str::to_lowercase`. Its result is a function of the text; in a text of
/// ASCII characters it turns the capital letters small and leaves the rest. What it
/// does to other characters is not said.
#[verifier::external_body]
fn lowercased(s: &str) -> (r: String)
    ensures
        r@ == lowercase(s@),
        is_ascii_chars(s@) ==> r@ == ascii_lower(s@),
{
    s.to_lowercase()
}

/// The text that stands for a day, or for one that is not known.
pub open spec fn day_text(date: Option<(int, int, int)>) -> Seq<char> {
    match date {
        Some(d) => date_text(d),
        None => "Unknown"@,
    }
}

/// The text that stands for a day, or for one that is not known.
fn text_of_day(date: Option<Date>) -> (s: String)
    ensures
        s@ == day_text(day(date)),
{
    match date {
        Some(d) => d.text(),
        None => "Unknown".to_owned(),
    }
}

impl ScanView {
    /// The scan with one more file of `len` bytes under a key.
    pub open spec fn with_file(self, key: Key, len: nat) -> ScanView {
        let (count, size) = if self.stats.contains_key(key) {
            self.stats[key]
        } else {
            (0, 0)
        };
        ScanView { stats: self.stats.insert(key, (count + 1, size + len)), ..self }
    }

    /// The key that a selected entry is counted under.
    pub open spec fn key_of(entry: EntryView) -> Key {
        (day_text(entry.metadata->Some_0.modified), lowercase(entry.extension->Some_0))
    }

    /// The scan with one more entry of the walk, which counts if it is selected.
    pub open spec fn with_entry(self, entry: EntryView) -> ScanView {
        if self.filter.selects(entry) {
            self.with_file(ScanView::key_of(entry), entry.metadata->Some_0.len)
        } else {
            self
        }
    }

    /// Whether an entry of the walk can be counted in the machine's integers.
    pub open spec fn can_take(self, entry: EntryView) -> bool {
        self.filter.selects(entry) ==> self.can_count(
            ScanView::key_of(entry),
            entry.metadata->Some_0.len,
        )
    }

    /// Whether one more file of `len` bytes under a key can be counted in the
    /// machine's integers.
    pub open spec fn can_count(self, key: Key, len: nat) -> bool {
        self.stats.contains_key(key) ==> {
            &&& self.stats[key].0 < usize::MAX
            &&& self.stats[key].1 + len <= u64::MAX
        }
    }
}

/// What the driver of a scan has found out.
#[derive(Debug)]
pub enum ScanEvent {
    /// The user has asked to stop. The driver looks for that once it has an entry.
    Cancelled,
    /// An entry of the walk.
    Walked { entry: Entry },
    /// The walk has ended.
    WalkEnded,
}

/// The outcome of a step of a scan.
#[derive(Debug)]
pub enum ScanTurn {
    /// The driver is to get the next entry of the walk.
    Next { job: ScanJob },
    /// The driver is to stop, and to send the message if there is one.
    Stop { message: Option<ScanMessage> },
    /// A count or a sum does not fit the machine's integers.
    Overflow,
}

/// Whether a row comes before a key.
fn row_before(row: &ScanResult, date: &String, extension: &String) -> (b: bool)
    ensures
        b == key_less(row@.key(), (date@, extension@)),
{
    comes_before(row.date.as_str(), date.as_str()) || (row.date == *date && comes_before(
        row.extension.as_str(),
        extension.as_str(),
    ))
}

impl ScanJob {
    #[verifier::type_invariant]
    spec fn ordered(self) -> bool {
        &&& in_order(rows(self.results@))
        &&& forall|i: int|
            0 <= i < self.results@.len() ==> (#[trigger] self.results@[i]).camera_label@
                == self.camera_label@
    }

    /// The files that are counted.
    pub fn filter(&self) -> (filter: &Filter)
        ensures
            filter@ == self@.filter,
    {
        &self.filter
    }

    /// Whether one more file of `len` bytes under a day and an extension can be counted.
    pub fn can_count(&self, date: &String, extension: &String, len: u64) -> (b: bool)
        ensures
            b == self@.can_count((date@, extension@), len as nat),
    {
        proof {
            use_type_invariant(self);
        }
        let ghost key: Key = (date@, extension@);
        let ghost list = rows(self.results@);
        let mut i: usize = 0;
        while i < self.results.len()
            invariant
                i <= self.results@.len(),
                list == rows(self.results@),
                in_order(list),
                self@.stats == listed(list),
                key == (date@, extension@),
                forall|j: int| 0 <= j < i ==> #[trigger] list[j].key() != key,
            decreases self.results@.len() - i,
        {
            if self.results[i].date == *date && self.results[i].extension == *extension {
                proof {
                    assert(list[i as int] == self.results@[i as int]@);
                    lemma_listed(list, i as int);
                }
                return self.results[i].count < usize::MAX && self.results[i].total_size <= u64::MAX
                    - len;
            }
            i = i + 1;
        }
        true
    }

    /// Counts one more file of `len` bytes under a day and an extension.
    pub fn add(self, date: String, extension: String, len: u64) -> (job: ScanJob)
        requires
            self@.can_count((date@, extension@), len as nat),
        ensures
            job@ == self@.with_file((date@, extension@), len as nat),
    {
        proof {
            use_type_invariant(&self);
        }
        let ScanJob { camera_label, filter, mut results } = self;
        let ghost key: Key = (date@, extension@);
        let ghost before = rows(results@);
        let mut at: usize = 0;
        while at < results.len() && row_before(&results[at], &date, &extension)
            invariant
                at <= results@.len(),
                key == (date@, extension@),
                forall|i: int|
                    0 <= i < at ==> key_less(#[trigger] rows(results@)[i].key(), key),
            decreases results@.len() - at,
        {
            at = at + 1;
        }
        if at < results.len() && results[at].date == date && results[at].extension == extension {
            proof {
                lemma_listed(before, at as int);
                let row = ResultView {
                    count: before[at as int].count + 1,
                    total_size: before[at as int].total_size + len as nat,
                    ..before[at as int]
                };
                lemma_update(before, at as int, row);
            }
            let count: usize = results[at].count;
            let total_size: u64 = results[at].total_size;
            let label = camera_label.clone();
            results.set(
                at,
                ScanResult {
                    camera_label: label,
                    date,
                    extension,
                    count: count + 1,
                    total_size: total_size + len,
                },
            );
            proof {
                let row = ResultView {
                    count: before[at as int].count + 1,
                    total_size: before[at as int].total_size + len as nat,
                    ..before[at as int]
                };
                assert(rows(results@) =~= before.update(at as int, row));
            }
        } else {
            let label = camera_label.clone();
            let row = ScanResult { camera_label: label, date, extension, count: 1, total_size: len };
            proof {
                assert forall|i: int| at <= i < before.len() implies key_less(
                    key,
                    #[trigger] before[i].key(),
                ) by {
                    key_less_total(key, before[at as int].key());
                    if at < i {
                        key_less_transitive(key, before[at as int].key(), before[i].key());
                    }
                }
                lemma_insert(before, at as int, row@);
            }
            results.insert(at, row);
            assert(rows(results@) =~= before.insert(at as int, row@));
        }
        ScanJob { camera_label, filter, results }
    }

    /// The result of the scan: what has been counted, by day and then by extension.
    pub fn finish(self) -> (message: ScanMessage)
        ensures
            message.is_done,
            message.status@ == "Done"@,
            is_listing(rows(message.results@), self@.camera_label, self@.stats),
    {
        proof {
            use_type_invariant(&self);
            let list = rows(self.results@);
            assert forall|i: int| 0 <= i < list.len() implies {
                &&& self@.stats.contains_key(#[trigger] list[i].key())
                &&& self@.stats[list[i].key()] == list[i].tally()
                &&& list[i].camera_label == self@.camera_label
            } by {
                lemma_listed(list, i);
                assert(list[i] == self.results@[i]@);
            }
        }
        ScanMessage { is_done: true, status: "Done".to_owned(), results: self.results }
    }

    /// The next step of the scan.
    pub fn step(self, event: ScanEvent) -> (turn: ScanTurn)
        ensures
            match (event, turn) {
                (ScanEvent::Cancelled, ScanTurn::Stop { message }) => message is None,
                (ScanEvent::Walked { entry }, ScanTurn::Next { job }) => self@.can_take(entry@)
                    && job@ == self@.with_entry(entry@),
                (ScanEvent::Walked { entry }, ScanTurn::Overflow) => !self@.can_take(entry@),
                (ScanEvent::WalkEnded, ScanTurn::Stop { message }) => message matches Some(m)
                    && m.is_done && m.status@ == "Done"@ && is_listing(
                    rows(m.results@),
                    self@.camera_label,
                    self@.stats,
                ),
                _ => false,
            },
            // Of an extension in ASCII, the case does not count.
            event matches ScanEvent::Walked { entry } ==> self@.filter.selects(entry@)
                && is_ascii_chars(entry@.extension->Some_0) ==> lowercase(entry@.extension->Some_0)
                == ascii_lower(entry@.extension->Some_0),
    {
        match event {
            ScanEvent::Cancelled => ScanTurn::Stop { message: None },
            ScanEvent::Walked { entry } => {
                if !self.filter.selects(&entry) {
                    return ScanTurn::Next { job: self };
                }
                match (entry.extension, entry.metadata) {
                    (Some(extension), Some(info)) => {
                        let date = text_of_day(info.modified);
                        let lower = lowercased(extension.as_str());
                        if self.can_count(&date, &lower, info.len) {
                            ScanTurn::Next { job: self.add(date, lower, info.len) }
                        } else {
                            ScanTurn::Overflow
                        }
                    },
                    _ => ScanTurn::Next { job: self },
                }
            },
            ScanEvent::WalkEnded => ScanTurn::Stop { message: Some(self.finish()) },
        }
    }
}

/// Begins the scan of a source: its files with one of the extensions, changed within
/// the period, are to be counted.
pub fn start_scan(
    camera_label: String,
    extensions: Vec<String>,
    start_date: Option<Date>,
    end_date: Option<Date>,
) -> (r: (ScanJob, ScanMessage))
    ensures
        r.0@ == (ScanView {
            camera_label: camera_label@,
            filter: FilterView {
                extensions: texts(extensions@),
                start_date: day(start_date),
                end_date: day(end_date),
            },
            stats: Map::empty(),
        }),
        !r.1.is_done,
        r.1.status@ == "Scanning..."@,
        r.1.results@.len() == 0,
{
    let results: Vec<ScanResult> = Vec::new();
    let job = ScanJob {
        camera_label,
        filter: Filter { extensions, start_date, end_date },
        results,
    };
    assert(listed(rows(results@)) =~= Map::empty());
    let message = ScanMessage {
        is_done: false,
        status: "Scanning...".to_owned(),
        results: Vec::new(),
    };
    (job, message)
}

} // verus!

//! The state behind the window: sources, settings, running imports and scans.
use crate::date::{Date, Ymd};
use crate::filter::day;
use crate::float::decoded;
pub use crate::format::{format_eta, format_size, format_speed};
use crate::format::{eta_text, size_text, speed_text};
use crate::importer::{messages, ConflictResolution, ProgressMessage, ProgressView};
use crate::progress::is_positive;
use crate::scan::{rows, ResultView, ScanMessage, ScanResult};
use crate::text::{decimal, list_entries, parse_extensions, push_decimal, texts, trim, trimmed};
use vstd::prelude::*;

verus! {

/// A camera or card to import from: where it lies, how that is shown, and the name of
/// the folder that its files go to.
#[derive(Debug)]
pub struct Source<P> {
    pub path: P,
    pub shown: String,
    pub label: String,
}

/// A source, in texts.
pub struct SourceView<P> {
    pub path: P,
    pub shown: Seq<char>,
    pub label: Seq<char>,
}

impl<P> View for Source<P> {
    type V = SourceView<P>;

    open spec fn view(&self) -> SourceView<P> {
        SourceView { path: self.path, shown: self.shown@, label: self.label@ }
    }
}

/// How the import of a source stands, as the window shows it. The percentage is given
/// by the bits of a binary32 number, the speed by those of a binary64 number.
#[derive(Debug)]
pub struct SourceProgress {
    pub path: String,
    pub status: String,
    pub progress: u32,
    pub speed_bytes_per_sec: u64,
    pub eta_seconds: Option<u64>,
    pub total_size_bytes: u64,
    pub copied_size_bytes: u64,
    pub done: bool,
}

/// How the import of a source stands, in texts and numbers.
pub struct SourceProgressView {
    pub path: Seq<char>,
    pub status: Seq<char>,
    pub progress: int,
    pub speed_bytes_per_sec: int,
    pub eta_seconds: Option<u64>,
    pub total_size_bytes: int,
    pub copied_size_bytes: int,
    pub done: bool,
}

impl View for SourceProgress {
    type V = SourceProgressView;

    open spec fn view(&self) -> SourceProgressView {
        SourceProgressView {
            path: self.path@,
            status: self.status@,
            progress: self.progress as int,
            speed_bytes_per_sec: self.speed_bytes_per_sec as int,
            eta_seconds: self.eta_seconds,
            total_size_bytes: self.total_size_bytes as int,
            copied_size_bytes: self.copied_size_bytes as int,
            done: self.done,
        }
    }
}

/// What the window keeps from one run to the next.
#[derive(Debug)]
pub struct AppState {
    pub destination: Option<String>,
    pub project_label: String,
    pub conflict_res: ConflictResolution,
    pub extensions_input: String,
    pub filter_start_date: bool,
    pub filter_end_date: bool,
}

/// What the window keeps, in texts.
pub struct AppStateView {
    pub destination: Option<Seq<char>>,
    pub project_label: Seq<char>,
    pub conflict_res: ConflictResolution,
    pub extensions_input: Seq<char>,
    pub filter_start_date: bool,
    pub filter_end_date: bool,
}

/// The text of a string that may be absent.
pub open spec fn text_of(s: Option<String>) -> Option<Seq<char>> {
    match s {
        Some(t) => Some(t@),
        None => None,
    }
}

impl View for AppState {
    type V = AppStateView;

    open spec fn view(&self) -> AppStateView {
        AppStateView {
            destination: text_of(self.destination),
            project_label: self.project_label@,
            conflict_res: self.conflict_res,
            extensions_input: self.extensions_input@,
            filter_start_date: self.filter_start_date,
            filter_end_date: self.filter_end_date,
        }
    }
}

/// The scan of one source that is to be begun.
#[derive(Debug)]
pub struct ScanRequest {
    pub source: usize,
    pub camera_label: String,
    pub extensions: Vec<String>,
    pub start_date: Option<Date>,
    pub end_date: Option<Date>,
}

/// The scan of one source that is to be begun, in texts and numbers.
pub struct ScanRequestView {
    pub source: int,
    pub camera_label: Seq<char>,
    pub extensions: Seq<Seq<char>>,
    pub start_date: Option<Ymd>,
    pub end_date: Option<Ymd>,
}

impl View for ScanRequest {
    type V = ScanRequestView;

    open spec fn view(&self) -> ScanRequestView {
        ScanRequestView {
            source: self.source as int,
            camera_label: self.camera_label@,
            extensions: texts(self.extensions@),
            start_date: day(self.start_date),
            end_date: day(self.end_date),
        }
    }
}

/// The import of one source that is to be begun.
#[derive(Debug)]
pub struct ImportRequest {
    pub source: usize,
    pub destination: String,
    pub project_label: String,
    pub camera_label: String,
    pub extensions: Vec<String>,
    pub start_date: Option<Date>,
    pub end_date: Option<Date>,
    pub conflict_res: ConflictResolution,
}

/// The import of one source that is to be begun, in texts and numbers.
pub struct ImportRequestView {
    pub source: int,
    pub destination: Seq<char>,
    pub project_label: Seq<char>,
    pub camera_label: Seq<char>,
    pub extensions: Seq<Seq<char>>,
    pub start_date: Option<Ymd>,
    pub end_date: Option<Ymd>,
    pub conflict_res: ConflictResolution,
}

impl View for ImportRequest {
    type V = ImportRequestView;

    open spec fn view(&self) -> ImportRequestView {
        ImportRequestView {
            source: self.source as int,
            destination: self.destination@,
            project_label: self.project_label@,
            camera_label: self.camera_label@,
            extensions: texts(self.extensions@),
            start_date: day(self.start_date),
            end_date: day(self.end_date),
            conflict_res: self.conflict_res,
        }
    }
}

/// The state behind the window. Paths of sources are only carried and compared.
#[derive(Debug)]
pub struct ImportUtilityApp<P> {
    pub sources: Vec<Source<P>>,
    pub destination: Option<String>,
    pub project_label: String,
    pub conflict_res: ConflictResolution,
    pub extensions_input: String,
    pub new_source_input: String,
    pub dest_input: String,
    pub filter_start_date: bool,
    pub start_date: Date,
    pub filter_end_date: bool,
    pub end_date: Date,
    pub is_importing: bool,
    pub progress_states: Vec<SourceProgress>,
    pub is_scanning: bool,
    pub scan_results: Vec<ScanResult>,
    pub scan_status: String,
    pub active_scans: usize,
    /// Whether running imports and scans are to stop.
    pub cancelled: bool,
}

/// The state behind the window, in texts and numbers.
#[verifier::ext_equal]
pub struct AppView<P> {
    pub sources: Seq<SourceView<P>>,
    pub destination: Option<Seq<char>>,
    pub project_label: Seq<char>,
    pub conflict_res: ConflictResolution,
    pub extensions_input: Seq<char>,
    pub new_source_input: Seq<char>,
    pub dest_input: Seq<char>,
    pub filter_start_date: bool,
    pub start_date: Ymd,
    pub filter_end_date: bool,
    pub end_date: Ymd,
    pub is_importing: bool,
    pub progress_states: Seq<SourceProgressView>,
    pub is_scanning: bool,
    pub scan_results: Seq<ResultView>,
    pub scan_status: Seq<char>,
    pub active_scans: int,
    pub cancelled: bool,
}

impl<P> View for ImportUtilityApp<P> {
    type V = AppView<P>;

    open spec fn view(&self) -> AppView<P> {
        AppView {
            sources: self.sources@.map_values(|s: Source<P>| s@),
            destination: text_of(self.destination),
            project_label: self.project_label@,
            conflict_res: self.conflict_res,
            extensions_input: self.extensions_input@,
            new_source_input: self.new_source_input@,
            dest_input: self.dest_input@,
            filter_start_date: self.filter_start_date,
            start_date: self.start_date@,
            filter_end_date: self.filter_end_date,
            end_date: self.end_date@,
            is_importing: self.is_importing,
            progress_states: self.progress_states@.map_values(|s: SourceProgress| s@),
            is_scanning: self.is_scanning,
            scan_results: rows(self.scan_results@),
            scan_status: self.scan_status@,
            active_scans: self.active_scans as int,
            cancelled: self.cancelled,
        }
    }
}

// ---------------------------------------------------------------------------
// What the window does
// ---------------------------------------------------------------------------

impl SourceProgressView {
    /// A source whose import has not reported yet.
    pub open spec fn waiting(path: Seq<char>) -> SourceProgressView {
        SourceProgressView {
            path,
            status: "Waiting..."@,
            progress: 0,
            speed_bytes_per_sec: 0,
            eta_seconds: None,
            total_size_bytes: 0,
            copied_size_bytes: 0,
            done: false,
        }
    }

    /// The state that a message tells.
    pub open spec fn told(self, message: ProgressView) -> SourceProgressView {
        SourceProgressView {
            path: self.path,
            status: message.status,
            progress: message.progress_percent,
            speed_bytes_per_sec: message.speed_bytes_per_sec,
            eta_seconds: message.eta_seconds,
            total_size_bytes: message.total_size_bytes,
            copied_size_bytes: message.copied_size_bytes,
            done: message.done,
        }
    }
}

/// The states after messages, each of which tells the state of one source. One that
/// names no source tells nothing.
pub open spec fn told_all(
    states: Seq<SourceProgressView>,
    told: Seq<ProgressView>,
) -> Seq<SourceProgressView>
    decreases told.len(),
{
    if told.len() == 0 {
        states
    } else {
        let before = told_all(states, told.drop_last());
        let m = told.last();
        if m.source_index < before.len() {
            before.update(m.source_index as int, before[m.source_index as int].told(m))
        } else {
            before
        }
    }
}

/// Whether every source is done.
pub open spec fn all_done(states: Seq<SourceProgressView>) -> bool {
    forall|i: int| 0 <= i < states.len() ==> (#[trigger] states[i]).done
}

/// A message of a scan, in texts and numbers.
pub struct ScanMessageView {
    pub is_done: bool,
    pub status: Seq<char>,
    pub results: Seq<ResultView>,
}

impl View for ScanMessage {
    type V = ScanMessageView;

    open spec fn view(&self) -> ScanMessageView {
        ScanMessageView {
            is_done: self.is_done,
            status: self.status@,
            results: rows(self.results@),
        }
    }
}

/// How many scans have ended.
pub open spec fn ended(told: Seq<ScanMessageView>) -> nat
    decreases told.len(),
{
    if told.len() == 0 {
        0
    } else {
        ended(told.drop_last()) + if told.last().is_done {
            1nat
        } else {
            0
        }
    }
}

/// The results of the scans that have ended, in the order in which they did.
pub open spec fn all_results(told: Seq<ScanMessageView>) -> Seq<ResultView>
    decreases told.len(),
{
    if told.len() == 0 {
        seq![]
    } else if told.last().is_done {
        all_results(told.drop_last()) + told.last().results
    } else {
        all_results(told.drop_last())
    }
}

/// The last status of a scan that has not ended.
pub open spec fn last_status(before: Seq<char>, told: Seq<ScanMessageView>) -> Seq<char>
    decreases told.len(),
{
    if told.len() == 0 {
        before
    } else if told.last().is_done {
        last_status(before, told.drop_last())
    } else {
        told.last().status
    }
}

impl<P> AppView<P> {
    /// Whether an import or a scan is running.
    pub open spec fn busy(self) -> bool {
        self.is_importing || self.is_scanning
    }

    /// Whether a scan can be begun.
    pub open spec fn ready_to_scan(self) -> bool {
        self.sources.len() > 0
    }

    /// Whether an import can be begun.
    pub open spec fn ready_to_start(self) -> bool {
        &&& self.ready_to_scan()
        &&& self.destination is Some
        &&& trim(self.project_label).len() > 0
    }

    /// The first day that counts, if there is one.
    pub open spec fn first_day(self) -> Option<Ymd> {
        if self.filter_start_date {
            Some(self.start_date)
        } else {
            None
        }
    }

    /// The last day that counts, if there is one.
    pub open spec fn last_day(self) -> Option<Ymd> {
        if self.filter_end_date {
            Some(self.end_date)
        } else {
            None
        }
    }

    /// The window as it opens on a day, with what was kept from an earlier run.
    pub open spec fn opened(today: Ymd, stored: Option<AppStateView>) -> AppView<P> {
        let fresh = AppView {
            sources: seq![],
            destination: None,
            project_label: seq![],
            conflict_res: ConflictResolution::Skip,
            extensions_input: "mp4, mkv, nev, wav"@,
            new_source_input: seq![],
            dest_input: seq![],
            filter_start_date: false,
            start_date: today,
            filter_end_date: false,
            end_date: today,
            is_importing: false,
            progress_states: seq![],
            is_scanning: false,
            scan_results: seq![],
            scan_status: seq![],
            active_scans: 0,
            cancelled: false,
        };
        match stored {
            Some(kept) => AppView {
                destination: kept.destination,
                dest_input: match kept.destination {
                    Some(d) => d,
                    None => seq![],
                },
                project_label: kept.project_label,
                conflict_res: kept.conflict_res,
                extensions_input: kept.extensions_input,
                filter_start_date: kept.filter_start_date,
                filter_end_date: kept.filter_end_date,
                ..fresh
            },
            None => fresh,
        }
    }

    /// What the window keeps for the next run.
    pub open spec fn kept(self) -> AppStateView {
        AppStateView {
            destination: self.destination,
            project_label: self.project_label,
            conflict_res: self.conflict_res,
            extensions_input: self.extensions_input,
            filter_start_date: self.filter_start_date,
            filter_end_date: self.filter_end_date,
        }
    }

    /// The window once scans of all sources have been begun.
    pub open spec fn scanning(self) -> AppView<P> {
        if self.ready_to_scan() {
            AppView {
                is_scanning: true,
                scan_results: seq![],
                scan_status: "Starting scan..."@,
                active_scans: self.sources.len() as int,
                cancelled: false,
                ..self
            }
        } else {
            self
        }
    }

    /// The scans of all sources.
    pub open spec fn scan_requests(self) -> Seq<ScanRequestView> {
        Seq::new(
            self.sources.len(),
            |i: int|
                ScanRequestView {
                    source: i,
                    camera_label: self.sources[i].label,
                    extensions: list_entries(self.extensions_input),
                    start_date: self.first_day(),
                    end_date: self.last_day(),
                },
        )
    }

    /// The window once imports of all sources have been begun.
    pub open spec fn importing(self) -> AppView<P> {
        if self.ready_to_start() {
            AppView {
                is_importing: true,
                progress_states: Seq::new(
                    self.sources.len(),
                    |i: int| SourceProgressView::waiting(self.sources[i].shown),
                ),
                cancelled: false,
                ..self
            }
        } else {
            self
        }
    }

    /// The imports of all sources, if they can be begun.
    pub open spec fn import_requests(self) -> Seq<ImportRequestView> {
        if self.ready_to_start() {
            Seq::new(
                self.sources.len(),
                |i: int|
                    ImportRequestView {
                        source: i,
                        destination: self.destination->Some_0,
                        project_label: self.project_label,
                        camera_label: self.sources[i].label,
                        extensions: list_entries(self.extensions_input),
                        start_date: self.first_day(),
                        end_date: self.last_day(),
                        conflict_res: self.conflict_res,
                    },
            )
        } else {
            seq![]
        }
    }

    /// The window after messages of imports; the import has ended once every source
    /// is done.
    pub open spec fn told_progress(self, told: Seq<ProgressView>) -> AppView<P> {
        if self.is_importing {
            let states = told_all(self.progress_states, told);
            AppView { progress_states: states, is_importing: !all_done(states), ..self }
        } else {
            self
        }
    }

    /// The window after messages of scans; the scan has ended once all scans have.
    pub open spec fn told_scans(self, told: Seq<ScanMessageView>) -> AppView<P> {
        if self.is_scanning {
            let active = if ended(told) < self.active_scans {
                self.active_scans - ended(told)
            } else {
                0
            };
            AppView {
                active_scans: active,
                scan_results: self.scan_results + all_results(told),
                scan_status: if active == 0 {
                    "Scan complete."@
                } else {
                    last_status(self.scan_status, told)
                },
                is_scanning: active != 0,
                ..self
            }
        } else {
            self
        }
    }
}

impl<P> AppView<P> {
    /// The window with one more source.
    pub open spec fn with_source(self, source: SourceView<P>) -> AppView<P> {
        AppView { sources: self.sources.push(source), ..self }
    }

    /// The window without a source.
    pub open spec fn without_source(self, index: int) -> AppView<P> {
        if !self.busy() && 0 <= index < self.sources.len() {
            AppView { sources: self.sources.remove(index), ..self }
        } else {
            self
        }
    }

    /// The window with another folder name for a source.
    pub open spec fn with_label(self, index: int, label: Seq<char>) -> AppView<P> {
        if !self.busy() && 0 <= index < self.sources.len() {
            AppView {
                sources: self.sources.update(
                    index,
                    SourceView { label, ..self.sources[index] },
                ),
                ..self
            }
        } else {
            self
        }
    }

    /// The path that the user has typed, if it can be added: not empty, and nothing
    /// is running.
    pub open spec fn typed_source(self) -> Option<Seq<char>> {
        if !self.busy() && trim(self.new_source_input).len() > 0 {
            Some(trim(self.new_source_input))
        } else {
            None
        }
    }

    /// The window with the destination that the user has typed.
    pub open spec fn synced(self) -> AppView<P> {
        AppView {
            destination: if trim(self.dest_input).len() > 0 {
                Some(trim(self.dest_input))
            } else {
                None
            },
            ..self
        }
    }

    /// The window where `changed` is, unless something is running.
    pub open spec fn unless_busy(self, changed: AppView<P>) -> AppView<P> {
        if self.busy() {
            self
        } else {
            changed
        }
    }
}

/// Whether `==` can tell two paths apart.
pub open spec fn told_apart<P: PartialEq>(a: P, b: P) -> bool {
    call_ensures(P::eq, (&a, &b), false)
}

/// Whether `==` can find two paths equal.
pub open spec fn found_equal<P: PartialEq>(a: P, b: P) -> bool {
    call_ensures(P::eq, (&a, &b), true)
}

impl<P: PartialEq> AppView<P> {
    /// Whether a path may be one at which a source lies.
    pub open spec fn has_path(self, path: P) -> bool {
        exists|i: int|
            0 <= i < self.sources.len() && found_equal((#[trigger] self.sources[i]).path, path)
    }

    /// Whether a path may be one at which no source lies.
    pub open spec fn lacks_path(self, path: P) -> bool {
        forall|i: int|
            0 <= i < self.sources.len() ==> told_apart((#[trigger] self.sources[i]).path, path)
    }

    /// Whether `after` is the window with one more source, unless one lies there already.
    pub open spec fn adds(self, source: SourceView<P>, after: AppView<P>) -> bool {
        ||| after == self && self.has_path(source.path)
        ||| after == self.with_source(source) && self.lacks_path(source.path)
    }
}

/// A copy of strings.
fn copied(strings: &Vec<String>) -> (r: Vec<String>)
    ensures
        texts(r@) == texts(strings@),
{
    let mut r: Vec<String> = Vec::new();
    let mut i: usize = 0;
    while i < strings.len()
        invariant
            i <= strings@.len(),
            r@ == strings@.take(i as int),
        decreases strings@.len() - i,
    {
        r.push(strings[i].clone());
        i = i + 1;
    }
    assert(strings@.take(i as int) =~= strings@);
    r
}

impl SourceProgress {
    /// Takes over what a message tells.
    fn tell(&mut self, message: ProgressMessage)
        ensures
            final(self)@ == old(self)@.told(message@),
    {
        self.status = message.status;
        self.progress = message.progress_percent;
        self.speed_bytes_per_sec = message.speed_bytes_per_sec;
        self.eta_seconds = message.eta_seconds;
        self.total_size_bytes = message.total_size_bytes;
        self.copied_size_bytes = message.copied_size_bytes;
        self.done = message.done;
    }
}

impl<P> ImportUtilityApp<P> {
    /// The window as it opens on a day, with what was kept from an earlier run.
    pub fn new(today: Date, stored: Option<AppState>) -> (app: Self)
        ensures
            app@ == AppView::<P>::opened(
                today@,
                match stored {
                    Some(kept) => Some(kept@),
                    None => None,
                },
            ),
    {
        let mut app = ImportUtilityApp {
            sources: Vec::new(),
            destination: None,
            project_label: String::new(),
            conflict_res: ConflictResolution::Skip,
            extensions_input: "mp4, mkv, nev, wav".to_owned(),
            new_source_input: String::new(),
            dest_input: String::new(),
            filter_start_date: false,
            start_date: today,
            filter_end_date: false,
            end_date: today,
            is_importing: false,
            progress_states: Vec::new(),
            is_scanning: false,
            scan_results: Vec::new(),
            scan_status: String::new(),
            active_scans: 0,
            cancelled: false,
        };
        if let Some(kept) = stored {
            if let Some(d) = &kept.destination {
                app.dest_input = d.clone();
            }
            app.destination = kept.destination;
            app.project_label = kept.project_label;
            app.conflict_res = kept.conflict_res;
            app.extensions_input = kept.extensions_input;
            app.filter_start_date = kept.filter_start_date;
            app.filter_end_date = kept.filter_end_date;
        }
        app
    }

    /// What the window keeps for the next run.
    pub fn save(&self) -> (state: AppState)
        ensures
            state@ == self@.kept(),
    {
        AppState {
            destination: match &self.destination {
                Some(d) => Some(d.clone()),
                None => None,
            },
            project_label: self.project_label.clone(),
            conflict_res: self.conflict_res,
            extensions_input: self.extensions_input.clone(),
            filter_start_date: self.filter_start_date,
            filter_end_date: self.filter_end_date,
        }
    }

    /// The first day that counts, if there is one.
    fn first_day(&self) -> (d: Option<Date>)
        ensures
            day(d) == self@.first_day(),
    {
        if self.filter_start_date {
            Some(self.start_date)
        } else {
            None
        }
    }

    /// The last day that counts, if there is one.
    fn last_day(&self) -> (d: Option<Date>)
        ensures
            day(d) == self@.last_day(),
    {
        if self.filter_end_date {
            Some(self.end_date)
        } else {
            None
        }
    }

    /// Begins scans of all sources, if there are any, and says which.
    pub fn start_scan(&mut self) -> (requests: Vec<ScanRequest>)
        ensures
            final(self)@ == old(self)@.scanning(),
            requests@.map_values(|r: ScanRequest| r@) == old(self)@.scan_requests(),
    {
        let mut requests: Vec<ScanRequest> = Vec::new();
        if self.sources.len() == 0 {
            assert(requests@.map_values(|r: ScanRequest| r@) =~= self@.scan_requests());
            return requests;
        }
        self.is_scanning = true;
        self.scan_results = Vec::new();
        self.scan_status = "Starting scan...".to_owned();
        self.active_scans = self.sources.len();
        self.cancelled = false;
        assert(rows(self.scan_results@) =~= seq![]);
        let extensions = parse_extensions(self.extensions_input.as_str());
        let start_date = self.first_day();
        let end_date = self.last_day();
        let mut i: usize = 0;
        while i < self.sources.len()
            invariant
                i == requests@.len() <= self.sources@.len(),
                texts(extensions@) == list_entries(self@.extensions_input),
                day(start_date) == self@.first_day(),
                day(end_date) == self@.last_day(),
                forall|j: int|
                    0 <= j < i ==> (#[trigger] requests@[j])@ == self@.scan_requests()[j],
            decreases self.sources@.len() - i,
        {
            requests.push(
                ScanRequest {
                    source: i,
                    camera_label: self.sources[i].label.clone(),
                    extensions: copied(&extensions),
                    start_date,
                    end_date,
                },
            );
            i = i + 1;
        }
        assert(requests@.map_values(|r: ScanRequest| r@) =~= self@.scan_requests());
        requests
    }

    /// Begins imports of all sources, if there are any and it is known where to, and
    /// says which.
    pub fn start_import(&mut self) -> (requests: Vec<ImportRequest>)
        ensures
            final(self)@ == old(self)@.importing(),
            requests@.map_values(|r: ImportRequest| r@) == old(self)@.import_requests(),
    {
        let mut requests: Vec<ImportRequest> = Vec::new();
        let ghost before = self@;
        assert(requests@.map_values(|r: ImportRequest| r@) =~= seq![]);
        if !self.ready_to_start() {
            return requests;
        }
        let destination = match &self.destination {
            Some(d) => d.clone(),
            None => return requests,
        };
        let extensions = parse_extensions(self.extensions_input.as_str());
        let start_date = self.first_day();
        let end_date = self.last_day();
        let mut states: Vec<SourceProgress> = Vec::new();
        let mut i: usize = 0;
        while i < self.sources.len()
            invariant
                self@ == before,
                before.ready_to_start(),
                destination@ == before.destination->Some_0,
                i == requests@.len() == states@.len() <= self.sources@.len(),
                texts(extensions@) == list_entries(before.extensions_input),
                day(start_date) == before.first_day(),
                day(end_date) == before.last_day(),
                forall|j: int|
                    0 <= j < i ==> (#[trigger] requests@[j])@ == before.import_requests()[j],
                forall|j: int|
                    0 <= j < i ==> (#[trigger] states@[j])@ == SourceProgressView::waiting(
                        before.sources[j].shown,
                    ),
            decreases self.sources@.len() - i,
        {
            states.push(
                SourceProgress {
                    path: self.sources[i].shown.clone(),
                    status: "Waiting...".to_owned(),
                    progress: 0,
                    speed_bytes_per_sec: 0,
                    eta_seconds: None,
                    total_size_bytes: 0,
                    copied_size_bytes: 0,
                    done: false,
                },
            );
            requests.push(
                ImportRequest {
                    source: i,
                    destination: destination.clone(),
                    project_label: self.project_label.clone(),
                    camera_label: self.sources[i].label.clone(),
                    extensions: copied(&extensions),
                    start_date,
                    end_date,
                    conflict_res: self.conflict_res,
                },
            );
            i = i + 1;
        }
        self.is_importing = true;
        self.progress_states = states;
        self.cancelled = false;
        proof {
            assert(requests@.map_values(|r: ImportRequest| r@) =~= before.import_requests());
            assert(self@.progress_states =~= before.importing().progress_states);
        }
        requests
    }

    /// Whether a scan can be begun.
    pub fn ready_to_scan(&self) -> (b: bool)
        ensures
            b == self@.ready_to_scan(),
    {
        self.sources.len() > 0
    }

    /// Whether an import can be begun.
    pub fn ready_to_start(&self) -> (b: bool)
        ensures
            b == self@.ready_to_start(),
    {
        self.ready_to_scan() && self.destination.is_some() && !trimmed(
            self.project_label.as_str(),
        ).as_str().is_empty()
    }

    /// Takes over what imports have told since the last time.
    pub fn receive_progress(&mut self, told: Vec<ProgressMessage>)
        ensures
            final(self)@ == old(self)@.told_progress(messages(told@)),
    {
        if !self.is_importing {
            return ;
        }
        let ghost before = self@;
        let ghost all = messages(told@);
        assert(all.take(0) =~= seq![]);
        for m in it: told
            invariant
                it.seq() == told@,
                all == messages(told@),
                self@ == (AppView {
                    progress_states: told_all(before.progress_states, all.take(it.index() as int)),
                    ..before
                }),
        {
            let ghost i = it.index() as int;
            assert(all.take(i + 1).drop_last() =~= all.take(i));
            let ghost states = self@.progress_states;
            let index: usize = m.source_index;
            if index < self.progress_states.len() {
                self.progress_states[index].tell(m);
                assert(self@.progress_states =~= states.update(
                    index as int,
                    states[index as int].told(m@),
                ));
            }
        }
        assert(all.take(all.len() as int) =~= all);
        let mut every = true;
        let mut i: usize = 0;
        while i < self.progress_states.len() && every
            invariant
                i <= self.progress_states@.len(),
                every ==> forall|j: int|
                    0 <= j < i ==> (#[trigger] self@.progress_states[j]).done,
                !every ==> !all_done(self@.progress_states),
            decreases self.progress_states@.len() - i,
        {
            if !self.progress_states[i].done {
                assert(!self@.progress_states[i as int].done);
                every = false;
            }
            i = i + 1;
        }
        if every {
            self.is_importing = false;
        }
    }

    /// Takes over what scans have told since the last time.
    pub fn receive_scans(&mut self, told: Vec<ScanMessage>)
        ensures
            final(self)@ == old(self)@.told_scans(told@.map_values(|m: ScanMessage| m@)),
    {
        if !self.is_scanning {
            return ;
        }
        let ghost before = self@;
        let ghost all = told@.map_values(|m: ScanMessage| m@);
        assert(all.take(0) =~= seq![]);
        assert(before.scan_results + seq![] =~= before.scan_results);
        for m in it: told
            invariant
                it.seq() == told@,
                all == told@.map_values(|m: ScanMessage| m@),
                before.active_scans >= 0,
                self@ == (AppView {
                    active_scans: if ended(all.take(it.index() as int)) < before.active_scans {
                        before.active_scans - ended(all.take(it.index() as int))
                    } else {
                        0
                    },
                    scan_results: before.scan_results + all_results(all.take(it.index() as int)),
                    scan_status: last_status(before.scan_status, all.take(it.index() as int)),
                    ..before
                }),
        {
            let ghost i = it.index() as int;
            let ghost earlier = all_results(all.take(i));
            assert(all.take(i + 1).drop_last() =~= all.take(i));
            assert(all.take(i + 1).last() == m@);
            if m.is_done {
                self.active_scans = self.active_scans.saturating_sub(1);
                let mut results = m.results;
                let ghost more = rows(results@);
                let ghost sum = rows(self.scan_results@) + rows(results@);
                self.scan_results.append(&mut results);
                proof {
                    assert(rows(self.scan_results@) =~= sum);
                    assert(sum =~= before.scan_results + (earlier + more));
                }
            } else {
                self.scan_status = m.status;
            }
        }
        assert(all.take(all.len() as int) =~= all);
        if self.active_scans == 0 {
            self.is_scanning = false;
            self.scan_status = "Scan complete.".to_owned();
        }
    }

    /// Whether an import or a scan is running.
    pub fn busy(&self) -> (b: bool)
        ensures
            b == self@.busy(),
    {
        self.is_importing || self.is_scanning
    }

    /// Takes a source off the list, unless something is running.
    pub fn remove_source(&mut self, index: usize)
        ensures
            final(self)@ == old(self)@.without_source(index as int),
    {
        if !self.busy() && index < self.sources.len() {
            let ghost before = self@;
            self.sources.remove(index);
            assert(self@.sources =~= before.sources.remove(index as int));
        }
    }

    /// Gives a source another folder name, unless something is running.
    pub fn set_label(&mut self, index: usize, label: String)
        ensures
            final(self)@ == old(self)@.with_label(index as int, label@),
    {
        if !self.busy() && index < self.sources.len() {
            let ghost before = self@;
            let ghost new = label@;
            self.sources[index].label = label;
            assert(self@.sources =~= before.with_label(index as int, new).sources);
        }
    }

    /// The path that the user has typed, if it can be added.
    pub fn typed_source(&self) -> (path: Option<String>)
        ensures
            text_of(path) == self@.typed_source(),
    {
        let path = trimmed(self.new_source_input.as_str());
        if !self.busy() && !path.as_str().is_empty() {
            Some(path)
        } else {
            None
        }
    }

    /// Takes over the destination that the user has typed.
    pub fn sync_destination(&mut self)
        ensures
            final(self)@ == old(self)@.synced(),
    {
        let typed = trimmed(self.dest_input.as_str());
        if typed.as_str().is_empty() {
            self.destination = None;
        } else {
            self.destination = Some(typed);
        }
    }

    /// Takes over a destination that the user has picked, unless something is running.
    pub fn pick_destination(&mut self, folder: String)
        ensures
            final(self)@ == old(self)@.unless_busy(
                AppView { dest_input: folder@, destination: Some(folder@), ..old(self)@ },
            ),
    {
        if !self.busy() {
            self.dest_input = folder.clone();
            self.destination = Some(folder);
        }
    }

    /// Takes over the path that the user is typing, unless something is running.
    pub fn set_new_source_input(&mut self, input: String)
        ensures
            final(self)@ == old(self)@.unless_busy(
                AppView { new_source_input: input@, ..old(self)@ },
            ),
    {
        if !self.busy() {
            self.new_source_input = input;
        }
    }

    /// Takes over the destination that the user is typing, unless something is running.
    pub fn set_dest_input(&mut self, input: String)
        ensures
            final(self)@ == old(self)@.unless_busy(AppView { dest_input: input@, ..old(self)@ }),
    {
        if !self.busy() {
            self.dest_input = input;
        }
    }

    /// Takes over the name of the project, unless something is running.
    pub fn set_project_label(&mut self, label: String)
        ensures
            final(self)@ == old(self)@.unless_busy(
                AppView { project_label: label@, ..old(self)@ },
            ),
    {
        if !self.busy() {
            self.project_label = label;
        }
    }

    /// Takes over the list of extensions, unless something is running.
    pub fn set_extensions_input(&mut self, input: String)
        ensures
            final(self)@ == old(self)@.unless_busy(
                AppView { extensions_input: input@, ..old(self)@ },
            ),
    {
        if !self.busy() {
            self.extensions_input = input;
        }
    }

    /// Takes over the first day, unless something is running or no first day counts.
    pub fn set_start_date(&mut self, date: Date)
        ensures
            final(self)@ == if old(self)@.filter_start_date {
                old(self)@.unless_busy(AppView { start_date: date@, ..old(self)@ })
            } else {
                old(self)@
            },
    {
        if self.filter_start_date && !self.busy() {
            self.start_date = date;
        }
    }

    /// Takes over the last day, unless something is running or no last day counts.
    pub fn set_end_date(&mut self, date: Date)
        ensures
            final(self)@ == if old(self)@.filter_end_date {
                old(self)@.unless_busy(AppView { end_date: date@, ..old(self)@ })
            } else {
                old(self)@
            },
    {
        if self.filter_end_date && !self.busy() {
            self.end_date = date;
        }
    }

    /// Takes over what to do with files whose names are taken.
    pub fn set_conflict_res(&mut self, conflict_res: ConflictResolution)
        ensures
            final(self)@ == (AppView { conflict_res, ..old(self)@ }),
    {
        self.conflict_res = conflict_res;
    }

    /// Takes over whether a first day counts.
    pub fn set_filter_start_date(&mut self, on: bool)
        ensures
            final(self)@ == (AppView { filter_start_date: on, ..old(self)@ }),
    {
        self.filter_start_date = on;
    }

    /// Takes over whether a last day counts.
    pub fn set_filter_end_date(&mut self, on: bool)
        ensures
            final(self)@ == (AppView { filter_end_date: on, ..old(self)@ }),
    {
        self.filter_end_date = on;
    }

    /// Asks what is running to stop.
    pub fn cancel(&mut self)
        ensures
            final(self)@ == if old(self)@.busy() {
                AppView { cancelled: true, ..old(self)@ }
            } else {
                old(self)@
            },
    {
        if self.busy() {
            self.cancelled = true;
        }
    }

    /// Asks everything to stop as the window closes.
    pub fn on_exit(&mut self)
        ensures
            final(self)@ == (AppView { cancelled: true, ..old(self)@ }),
    {
        self.cancelled = true;
    }
}

impl<P: PartialEq> ImportUtilityApp<P> {
    /// Whether a source lies at a path.
    fn has_path(&self, path: &P) -> (b: bool)
        ensures
            b ==> self@.has_path(*path),
            !b ==> self@.lacks_path(*path),
    {
        let mut i: usize = 0;
        while i < self.sources.len()
            invariant
                i <= self.sources@.len(),
                forall|j: int|
                    0 <= j < i ==> told_apart((#[trigger] self@.sources[j]).path, *path),
            decreases self.sources@.len() - i,
        {
            if self.sources[i].path.eq(path) {
                assert(found_equal(self@.sources[i as int].path, *path));
                return true;
            }
            i = i + 1;
        }
        false
    }

    /// Adds a source that the user has picked, unless one lies there already or
    /// something is running.
    pub fn add_source(&mut self, path: P, shown: String, label: String)
        ensures
            old(self)@.busy() ==> final(self)@ == old(self)@,
            !old(self)@.busy() ==> old(self)@.adds(
                SourceView { path, shown: shown@, label: label@ },
                final(self)@,
            ),
    {
        if !self.busy() && !self.has_path(&path) {
            let ghost before = self@;
            let source = Source { path, shown, label };
            self.sources.push(source);
            assert(self@.sources =~= before.sources.push(source@));
        }
    }

    /// Adds the source that the user has typed, unless one lies there already, and
    /// clears what was typed. The path is that of the typed text.
    pub fn add_typed_source(&mut self, path: P, shown: String, label: String)
        ensures
            old(self)@.typed_source() is None ==> final(self)@ == old(self)@,
            old(self)@.typed_source() is Some ==> (AppView {
                new_source_input: seq![],
                ..old(self)@
            }).adds(SourceView { path, shown: shown@, label: label@ }, final(self)@),
    {
        if self.typed_source().is_some() {
            self.new_source_input = String::new();
            self.add_source(path, shown, label);
        }
    }
}

// ---------------------------------------------------------------------------
// What the window shows
// ---------------------------------------------------------------------------

/// The cells of a row of scan results.
pub open spec fn scan_cells(result: ResultView) -> Seq<Seq<char>> {
    seq![
        result.camera_label,
        result.date,
        result.extension,
        decimal(result.count),
        size_text(result.total_size),
    ]
}

/// The cells of a row of scan results: camera, day, extension, count and size.
pub fn scan_row(result: &ScanResult) -> (cells: Vec<String>)
    ensures
        texts(cells@) == scan_cells(result@),
{
    let mut count = String::new();
    push_decimal(&mut count, result.count as u128);
    let mut cells: Vec<String> = Vec::new();
    cells.push(result.camera_label.clone());
    cells.push(result.date.clone());
    cells.push(result.extension.clone());
    cells.push(count);
    cells.push(format_size(result.total_size));
    assert(count@ =~= decimal(result.count as nat));
    assert(texts(cells@) =~= scan_cells(result@));
    cells
}

impl SourceProgress {
    /// The sizes, the speed and the remaining time of an import that is under way.
    pub fn detail(&self) -> (line: Option<String>)
        ensures
            text_of(line) == if !self.done && is_positive(self.progress) {
                Some(
                    size_text(self.copied_size_bytes as nat) + " / "@ + size_text(
                        self.total_size_bytes as nat,
                    ) + " | "@ + speed_text(decoded(self.speed_bytes_per_sec)) + " | "@ + eta_text(
                        self.eta_seconds,
                    ),
                )
            } else {
                None
            },
    {
        if !self.done && 0 < self.progress && self.progress <= 0x7f80_0000 {
            let mut line = format_size(self.copied_size_bytes);
            line.append(" / ");
            line.append(format_size(self.total_size_bytes).as_str());
            line.append(" | ");
            line.append(format_speed(self.speed_bytes_per_sec).as_str());
            line.append(" | ");
            line.append(format_eta(self.eta_seconds).as_str());
            Some(line)
        } else {
            None
        }
    }
}

/// Which buttons can be pressed.
#[derive(Clone, Copy, Debug, PartialEq, Eq, Structural)]
pub struct Buttons {
    pub cancel: bool,
    pub scan: bool,
    pub import: bool,
}

impl<P> ImportUtilityApp<P> {
    /// Which buttons can be pressed: while something is running, the one that stops it.
    pub fn buttons(&self) -> (b: Buttons)
        ensures
            b.cancel == self@.busy(),
            b.scan == (!self@.busy() && self@.ready_to_scan()),
            b.import == (!self@.busy() && self@.ready_to_start()),
    {
        let busy = self.busy();
        Buttons {
            cancel: busy,
            scan: !busy && self.ready_to_scan(),
            import: !busy && self.ready_to_start(),
        }
    }

    /// Whether the window shows results of scans, or how they stand.
    pub fn shows_scans(&self) -> (b: bool)
        ensures
            b == (self@.is_scanning || self@.scan_results.len() > 0),
    {
        self.is_scanning || self.scan_results.len() > 0
    }

    /// Whether the window shows how imports stand.
    pub fn shows_progress(&self) -> (b: bool)
        ensures
            b == (self@.progress_states.len() > 0),
    {
        self.progress_states.len() > 0
    }
}

} // verus!

//! Copying the files of a source into `<base>/<project>/<camera>`.
//!
//! A job decides; a driver walks directories, asks the file system and copies bytes.
//! Each step takes what the driver has found out and says what to do next.
use crate::date::Date;
use crate::filter::{day, Entry, EntryView, Filter, FilterView};
use crate::format::MEGA;
pub use crate::scan::{start_scan, ScanMessage, ScanResult};
use crate::progress::{eta_seconds, pace, percent, percent_bits, speed_bits, Seconds, HUNDRED};
use crate::text::{decimal, push_decimal, texts};
use vstd::prelude::*;

verus! {

/// What to do with a file whose name is taken at the destination.
#[derive(Clone, Copy, Debug, PartialEq, Eq, Structural)]
pub enum ConflictResolution {
    Skip,
    Overwrite,
    Rename,
}

/// How an import stands. The percentage is given by the bits of a binary32 number,
/// the speed by those of a binary64 number.
#[derive(Debug)]
pub struct ProgressMessage {
    pub source_index: usize,
    pub status: String,
    pub progress_percent: u32,
    pub speed_bytes_per_sec: u64,
    pub eta_seconds: Option<u64>,
    pub total_size_bytes: u64,
    pub copied_size_bytes: u64,
    pub done: bool,
}

/// How an import stands, with the text of the status.
pub struct ProgressView {
    pub source_index: usize,
    pub status: Seq<char>,
    pub progress_percent: int,
    pub speed_bytes_per_sec: int,
    pub eta_seconds: Option<u64>,
    pub total_size_bytes: int,
    pub copied_size_bytes: int,
    pub done: bool,
}

impl View for ProgressMessage {
    type V = ProgressView;

    open spec fn view(&self) -> ProgressView {
        ProgressView {
            source_index: self.source_index,
            status: self.status@,
            progress_percent: self.progress_percent as int,
            speed_bytes_per_sec: self.speed_bytes_per_sec as int,
            eta_seconds: self.eta_seconds,
            total_size_bytes: self.total_size_bytes as int,
            copied_size_bytes: self.copied_size_bytes as int,
            done: self.done,
        }
    }
}

/// The views of messages.
pub open spec fn messages(reports: Seq<ProgressMessage>) -> Seq<ProgressView> {
    reports.map_values(|m: ProgressMessage| m@)
}

/// The name of a file, as it is shown, and its two parts.
#[derive(Debug)]
pub struct FileName {
    pub shown: String,
    pub stem: String,
    pub extension: String,
}

/// The texts of a file name.
pub struct FileNameView {
    pub shown: Seq<char>,
    pub stem: Seq<char>,
    pub extension: Seq<char>,
}

impl View for FileName {
    type V = FileNameView;

    open spec fn view(&self) -> FileNameView {
        FileNameView { shown: self.shown@, stem: self.stem@, extension: self.extension@ }
    }
}

impl FileNameView {
    /// The name with a number behind its stem.
    pub open spec fn numbered(self, counter: int) -> Seq<char> {
        if self.extension.len() == 0 {
            self.stem + "_"@ + decimal(counter as nat)
        } else {
            self.stem + "_"@ + decimal(counter as nat) + "."@ + self.extension
        }
    }
}

impl FileName {
    /// The name with a number behind its stem.
    pub fn numbered(&self, counter: i32) -> (name: String)
        requires
            counter >= 0,
        ensures
            name@ == self@.numbered(counter as int),
    {
        let mut name = self.stem.clone();
        name.append("_");
        push_decimal(&mut name, counter as u128);
        if !self.extension.as_str().is_empty() {
            name.append(".");
            name.append(self.extension.as_str());
        }
        name
    }
}

/// Where an import stands.
#[derive(Debug)]
pub enum Stage {
    /// The source is being walked.
    Walking,
    /// The free space at the destination is being asked for.
    CheckingSpace,
    /// The destination directory is being made.
    MakingDir,
    /// The next file is about to be handled.
    Starting,
    /// The length of a file that is skipped is being asked for.
    Measuring { name: String },
    /// Whether a numbered name is taken is being asked for.
    Renaming { file: FileName, counter: i32 },
    /// The file and its copy are being opened.
    Opening { name: String },
    /// The file is being copied.
    Copying { name: String },
    /// Nothing is left to do.
    Stopped,
}

/// Where an import stands, in texts and numbers.
pub enum StageView {
    Walking,
    CheckingSpace,
    MakingDir,
    Starting,
    Measuring { name: Seq<char> },
    Renaming { file: FileNameView, counter: int },
    Opening { name: Seq<char> },
    Copying { name: Seq<char> },
    Stopped,
}

impl View for Stage {
    type V = StageView;

    open spec fn view(&self) -> StageView {
        match self {
            Stage::Walking => StageView::Walking,
            Stage::CheckingSpace => StageView::CheckingSpace,
            Stage::MakingDir => StageView::MakingDir,
            Stage::Starting => StageView::Starting,
            Stage::Measuring { name } => StageView::Measuring { name: name@ },
            Stage::Renaming { file, counter } => StageView::Renaming {
                file: file@,
                counter: *counter as int,
            },
            Stage::Opening { name } => StageView::Opening { name: name@ },
            Stage::Copying { name } => StageView::Copying { name: name@ },
            Stage::Stopped => StageView::Stopped,
        }
    }
}

/// How an import of one source stands. Paths are only carried.
#[derive(Debug)]
struct State<P> {
    source_index: usize,
    project_label: String,
    camera_label: String,
    filter: Filter,
    conflict_res: ConflictResolution,
    /// The files to copy, in the order of the walk.
    files: Vec<P>,
    /// The bytes of all files to copy.
    total_size: u64,
    /// The file that is handled now.
    next: usize,
    /// The bytes that are copied or skipped.
    copied_size: u64,
    stage: Stage,
}

/// An import of one source.
#[derive(Debug)]
pub struct ImportJob<P> {
    state: State<P>,
}

/// An import of one source, in texts and numbers.
pub struct JobView<P> {
    pub source_index: usize,
    pub project_label: Seq<char>,
    pub camera_label: Seq<char>,
    pub filter: FilterView,
    pub conflict_res: ConflictResolution,
    pub files: Seq<P>,
    pub total_size: int,
    pub next: int,
    pub copied_size: int,
    pub stage: StageView,
}

impl<P> View for State<P> {
    type V = JobView<P>;

    closed spec fn view(&self) -> JobView<P> {
        JobView {
            source_index: self.source_index,
            project_label: self.project_label@,
            camera_label: self.camera_label@,
            filter: self.filter@,
            conflict_res: self.conflict_res,
            files: self.files@,
            total_size: self.total_size as int,
            next: self.next as int,
            copied_size: self.copied_size as int,
            stage: self.stage@,
        }
    }
}

impl<P> View for ImportJob<P> {
    type V = JobView<P>;

    closed spec fn view(&self) -> JobView<P> {
        self.state@
    }
}

/// What the driver has found out.
#[derive(Debug)]
pub enum ImportEvent<P> {
    /// The user has asked to stop. The driver looks for that once it has an entry of
    /// the walk, before it looks at a file, and before it reads a chunk.
    Cancelled,
    /// An entry of the walk.
    Walked { path: P, entry: Entry },
    /// The walk has ended.
    WalkEnded,
    /// The free bytes at the destination, where they can be told.
    FreeSpace { free: Option<u64> },
    /// The destination directory is there.
    DirMade,
    /// The destination directory cannot be made, and why.
    DirFailed { reason: String },
    /// The name of the file, and whether it is taken at the destination.
    Probed { name: FileName, taken: bool },
    /// Whether the numbered name is taken at the destination.
    NameProbed { taken: bool },
    /// The length of the file that is skipped, where it can be read.
    Measured { len: Option<u64> },
    /// Whether both the file and its copy could be opened.
    Opened { both: bool },
    /// A chunk was read, whether it was written, and the time since copying began.
    ChunkRead { bytes: u64, written: bool, elapsed: Seconds },
    /// A chunk could not be read.
    ReadFailed,
}

/// What the driver has found out, in texts and numbers.
pub enum EventView<P> {
    Cancelled,
    Walked { path: P, entry: EntryView },
    WalkEnded,
    FreeSpace { free: Option<u64> },
    DirMade,
    DirFailed { reason: Seq<char> },
    Probed { name: FileNameView, taken: bool },
    NameProbed { taken: bool },
    Measured { len: Option<u64> },
    Opened { both: bool },
    ChunkRead { bytes: u64, written: bool, elapsed: (int, int) },
    ReadFailed,
}

impl<P> View for ImportEvent<P> {
    type V = EventView<P>;

    open spec fn view(&self) -> EventView<P> {
        match *self {
            ImportEvent::Cancelled => EventView::Cancelled,
            ImportEvent::Walked { path, entry } => EventView::Walked { path, entry: entry@ },
            ImportEvent::WalkEnded => EventView::WalkEnded,
            ImportEvent::FreeSpace { free } => EventView::FreeSpace { free },
            ImportEvent::DirMade => EventView::DirMade,
            ImportEvent::DirFailed { reason } => EventView::DirFailed { reason: reason@ },
            ImportEvent::Probed { name, taken } => EventView::Probed { name: name@, taken },
            ImportEvent::NameProbed { taken } => EventView::NameProbed { taken },
            ImportEvent::Measured { len } => EventView::Measured { len },
            ImportEvent::Opened { both } => EventView::Opened { both },
            ImportEvent::ChunkRead { bytes, written, elapsed } => EventView::ChunkRead {
                bytes,
                written,
                elapsed: elapsed@,
            },
            ImportEvent::ReadFailed => EventView::ReadFailed,
        }
    }
}

/// What the driver is to do next.
#[derive(Debug)]
pub enum ImportAction {
    /// Get the next entry of the walk.
    NextEntry,
    /// Ask for the free space at the destination.
    AskFreeSpace,
    /// Make the directory that lies in these folders, one in the other, below the base.
    MakeDir { folders: Vec<String> },
    /// Tell the name of this file, and whether it is taken in that directory.
    ProbeFile { index: usize },
    /// Tell whether this name is taken in that directory.
    ProbeName { name: String },
    /// Read the length of this file.
    MeasureFile { index: usize },
    /// Open this file, and create its copy under this name, or under its own.
    OpenFiles { index: usize, target: Option<String> },
    /// Read a chunk and write it.
    CopyChunk,
    /// Remove the copy that was begun, and stop.
    RemoveAndStop,
    /// Stop.
    Stop,
}

/// What the driver is to do next, in texts and numbers.
pub enum ActionView {
    NextEntry,
    AskFreeSpace,
    MakeDir { folders: Seq<Seq<char>> },
    ProbeFile { index: int },
    ProbeName { name: Seq<char> },
    MeasureFile { index: int },
    OpenFiles { index: int, target: Option<Seq<char>> },
    CopyChunk,
    RemoveAndStop,
    Stop,
}

impl View for ImportAction {
    type V = ActionView;

    open spec fn view(&self) -> ActionView {
        match self {
            ImportAction::NextEntry => ActionView::NextEntry,
            ImportAction::AskFreeSpace => ActionView::AskFreeSpace,
            ImportAction::MakeDir { folders } => ActionView::MakeDir { folders: texts(folders@) },
            ImportAction::ProbeFile { index } => ActionView::ProbeFile { index: *index as int },
            ImportAction::ProbeName { name } => ActionView::ProbeName { name: name@ },
            ImportAction::MeasureFile { index } => ActionView::MeasureFile {
                index: *index as int,
            },
            ImportAction::OpenFiles { index, target } => ActionView::OpenFiles {
                index: *index as int,
                target: match target {
                    Some(n) => Some(n@),
                    None => None,
                },
            },
            ImportAction::CopyChunk => ActionView::CopyChunk,
            ImportAction::RemoveAndStop => ActionView::RemoveAndStop,
            ImportAction::Stop => ActionView::Stop,
        }
    }
}

/// The outcome of a step: the job as it now stands, what to report, and what to do.
#[derive(Debug)]
pub struct ImportTurn<P> {
    pub job: ImportJob<P>,
    pub reports: Vec<ProgressMessage>,
    pub action: ImportAction,
}

/// The outcome of a step, in texts and numbers.
pub struct TurnView<P> {
    pub job: JobView<P>,
    pub reports: Seq<ProgressView>,
    pub action: ActionView,
}

impl<P> View for ImportTurn<P> {
    type V = TurnView<P>;

    open spec fn view(&self) -> TurnView<P> {
        TurnView { job: self.job@, reports: messages(self.reports@), action: self.action@ }
    }
}

/// The outcome of a step, before it is known that the job is valid.
#[derive(Debug)]
struct Outcome<P> {
    state: State<P>,
    reports: Vec<ProgressMessage>,
    action: ImportAction,
}

impl<P> View for Outcome<P> {
    type V = TurnView<P>;

    closed spec fn view(&self) -> TurnView<P> {
        TurnView { job: self.state@, reports: messages(self.reports@), action: self.action@ }
    }
}

// ---------------------------------------------------------------------------
// What a job does
// ---------------------------------------------------------------------------

/// The bytes that an import leaves free at the destination.
pub const RESERVE: u64 = 104_857_600;

/// Whether `total` bytes fit into `free` bytes with the reserve left.
pub open spec fn has_room(total: int, free: int) -> bool {
    total == 0 || total + RESERVE <= free
}

impl<P> JobView<P> {
    /// Whether the file that is handled now is one of the files, and nothing is copied
    /// before there is one.
    pub open spec fn valid(self) -> bool {
        match self.stage {
            StageView::Walking => self.next == 0 && self.copied_size == 0,
            StageView::CheckingSpace | StageView::MakingDir => self.next == 0 && self.copied_size
                == 0 && self.files.len() > 0,
            StageView::Starting
            | StageView::Measuring { .. }
            | StageView::Opening { .. }
            | StageView::Copying { .. } => 0 <= self.next < self.files.len(),
            StageView::Renaming { counter, .. } => 0 <= self.next < self.files.len() && counter
                >= 1,
            StageView::Stopped => true,
        }
    }

    /// The job at another stage.
    pub open spec fn at(self, stage: StageView) -> JobView<P> {
        JobView { stage, ..self }
    }

    /// A message with the sizes as they stand, and nothing else.
    pub open spec fn report(self, status: Seq<char>) -> ProgressView {
        ProgressView {
            source_index: self.source_index,
            status,
            progress_percent: 0,
            speed_bytes_per_sec: 0,
            eta_seconds: None,
            total_size_bytes: self.total_size,
            copied_size_bytes: self.copied_size,
            done: false,
        }
    }

    /// A message that also tells how far the copy has come.
    pub open spec fn report_percent(self, status: Seq<char>) -> ProgressView {
        ProgressView {
            progress_percent: percent_bits(self.copied_size as nat, self.total_size as nat),
            ..self.report(status)
        }
    }

    /// The outcome without a message.
    pub open spec fn quietly(self, action: ActionView) -> TurnView<P> {
        TurnView { job: self, reports: seq![], action }
    }

    /// The outcome with one message.
    pub open spec fn saying(self, message: ProgressView, action: ActionView) -> TurnView<P> {
        TurnView { job: self, reports: seq![message], action }
    }

    /// The end of the job, with a last message.
    pub open spec fn ending(self, message: ProgressView) -> TurnView<P> {
        self.at(StageView::Stopped).saying(ProgressView { done: true, ..message }, ActionView::Stop)
    }

    /// The job asks for room once the walk has found files.
    pub open spec fn after_walk(self) -> TurnView<P> {
        if self.files.len() == 0 {
            self.ending(
                ProgressView {
                    progress_percent: HUNDRED as int,
                    total_size_bytes: 0,
                    copied_size_bytes: 0,
                    ..self.report("No matching files found."@)
                },
            )
        } else {
            self.at(StageView::CheckingSpace).quietly(ActionView::AskFreeSpace)
        }
    }

    /// The job has an entry of the walk.
    pub open spec fn after_entry(self, path: P, entry: EntryView) -> TurnView<P> {
        let job = if self.filter.selects(entry) {
            JobView {
                files: self.files.push(path),
                total_size: self.total_size + entry.metadata->Some_0.len,
                ..self
            }
        } else {
            self
        };
        job.quietly(ActionView::NextEntry)
    }

    /// The job knows the free space, or that it cannot be told.
    pub open spec fn after_space(self, bytes: Option<u64>) -> TurnView<P> {
        if bytes matches Some(free) && !has_room(self.total_size, free as int) {
            let free = bytes->Some_0;
            self.ending(
                ProgressView {
                    progress_percent: HUNDRED as int,
                    copied_size_bytes: 0,
                    ..self.report(
                        "Error: Not enough space! Need "@ + decimal(
                            (self.total_size / MEGA as int) as nat,
                        ) + " MB, have "@ + decimal((free / MEGA) as nat) + " MB"@,
                    )
                },
            )
        } else {
            self.at(StageView::MakingDir).quietly(
                ActionView::MakeDir { folders: seq![self.project_label, self.camera_label] },
            )
        }
    }

    /// The job has its destination directory.
    pub open spec fn after_dir(self) -> TurnView<P> {
        self.at(StageView::Starting).saying(
            ProgressView {
                copied_size_bytes: 0,
                ..self.report("Found "@ + decimal(self.files.len()) + " files to copy"@)
            },
            ActionView::ProbeFile { index: self.next },
        )
    }

    /// The job has no destination directory.
    pub open spec fn after_dir_failed(self, reason: Seq<char>) -> TurnView<P> {
        self.ending(
            ProgressView { copied_size_bytes: 0, ..self.report("Error creating dir: "@ + reason) },
        )
    }

    /// The file is to be copied under another name, or under its own.
    pub open spec fn open_files(self, shown: Seq<char>, target: Option<Seq<char>>) -> TurnView<P> {
        self.at(StageView::Opening { name: shown }).saying(
            self.report_percent("Copying "@ + shown + "..."@),
            ActionView::OpenFiles { index: self.next, target },
        )
    }

    /// The job asks whether a numbered name is taken.
    pub open spec fn probe_name(self, name: FileNameView, counter: int) -> TurnView<P> {
        self.at(StageView::Renaming { file: name, counter }).quietly(
            ActionView::ProbeName { name: name.numbered(counter) },
        )
    }

    /// The job knows whether the name of its file is taken.
    pub open spec fn after_probe(self, name: FileNameView, taken: bool) -> TurnView<P> {
        if !taken {
            self.open_files(name.shown, None)
        } else {
            match self.conflict_res {
                ConflictResolution::Skip => self.at(
                    StageView::Measuring { name: name.shown },
                ).quietly(ActionView::MeasureFile { index: self.next }),
                ConflictResolution::Rename => self.probe_name(name, 1),
                ConflictResolution::Overwrite => self.open_files(name.shown, None),
            }
        }
    }

    /// The job knows whether a numbered name is taken.
    pub open spec fn after_name_probe(self, taken: bool) -> TurnView<P> {
        let name = self.stage->file;
        let counter = self.stage->counter;
        if taken {
            self.probe_name(name, counter + 1)
        } else {
            self.open_files(name.shown, Some(name.numbered(counter)))
        }
    }

    /// The job goes on to the next file, or ends.
    pub open spec fn next_file(self) -> TurnView<P> {
        let job = JobView { next: self.next + 1, ..self };
        if job.next < job.files.len() {
            job.at(StageView::Starting).quietly(ActionView::ProbeFile { index: job.next })
        } else {
            job.ending(
                ProgressView { progress_percent: HUNDRED as int, ..self.report("Done"@) },
            )
        }
    }

    /// The job knows the length of the file that it skips.
    pub open spec fn after_measure(self, len: Option<u64>) -> TurnView<P> {
        let skipped = match len {
            Some(n) => n as int,
            None => 0,
        };
        let job = JobView { copied_size: self.copied_size + skipped, ..self };
        let rest = job.next_file();
        TurnView {
            reports: seq![job.report_percent("Skipped "@ + self.stage->Measuring_name)]
                + rest.reports,
            ..rest
        }
    }

    /// The job knows whether the files are open.
    pub open spec fn after_open(self, both: bool) -> TurnView<P> {
        if both {
            self.at(StageView::Copying { name: self.stage->Opening_name }).quietly(
                ActionView::CopyChunk,
            )
        } else {
            self.next_file()
        }
    }

    /// The job has a chunk; an empty one ends the file, and so does one that could
    /// not be written.
    pub open spec fn after_chunk(
        self,
        bytes: int,
        written: bool,
        elapsed: (int, int),
    ) -> TurnView<P> {
        if bytes == 0 || !written {
            self.next_file()
        } else {
            let job = JobView { copied_size: self.copied_size + bytes, ..self };
            let left = if job.copied_size < job.total_size {
                job.total_size - job.copied_size
            } else {
                0
            };
            job.saying(
                ProgressView {
                    speed_bytes_per_sec: speed_bits(job.copied_size as nat, elapsed),
                    eta_seconds: eta_seconds(job.copied_size as nat, left as nat, elapsed),
                    ..job.report_percent("Copying: "@ + self.stage->Copying_name)
                },
                ActionView::CopyChunk,
            )
        }
    }

    /// The user has asked to stop; a copy that was begun does not stay.
    pub open spec fn after_cancel(self) -> TurnView<P> {
        self.at(StageView::Stopped).quietly(
            if self.stage is Copying {
                ActionView::RemoveAndStop
            } else {
                ActionView::Stop
            },
        )
    }

    /// Whether an event answers what the job has asked for, and the sums that follow
    /// from it stay within the machine's integers.
    pub open spec fn accepts(self, event: EventView<P>) -> bool {
        match (self.stage, event) {
            (StageView::Walking, EventView::Cancelled) => true,
            (StageView::Walking, EventView::Walked { entry, .. }) => self.filter.selects(entry)
                ==> self.total_size + entry.metadata->Some_0.len <= u64::MAX,
            (StageView::Walking, EventView::WalkEnded) => true,
            (StageView::CheckingSpace, EventView::FreeSpace { .. }) => true,
            (StageView::MakingDir, EventView::DirMade) => true,
            (StageView::MakingDir, EventView::DirFailed { .. }) => true,
            (StageView::Starting, EventView::Cancelled) => true,
            (StageView::Starting, EventView::Probed { .. }) => true,
            (StageView::Measuring { .. }, EventView::Measured { len }) => len matches Some(n)
                ==> self.copied_size + n <= u64::MAX,
            (StageView::Renaming { counter, .. }, EventView::NameProbed { taken }) => taken
                ==> counter < i32::MAX,
            (StageView::Opening { .. }, EventView::Opened { .. }) => true,
            (StageView::Copying { .. }, EventView::Cancelled) => true,
            (StageView::Copying { .. }, EventView::ReadFailed) => true,
            (StageView::Copying { .. }, EventView::ChunkRead { bytes, written, .. }) => (bytes > 0
                && written) ==> self.copied_size + bytes <= u64::MAX,
            _ => false,
        }
    }

    /// The outcome of an event.
    pub open spec fn step(self, event: EventView<P>) -> TurnView<P> {
        match event {
            EventView::Cancelled => self.after_cancel(),
            EventView::Walked { path, entry } => self.after_entry(path, entry),
            EventView::WalkEnded => self.after_walk(),
            EventView::FreeSpace { free } => self.after_space(free),
            EventView::DirMade => self.after_dir(),
            EventView::DirFailed { reason } => self.after_dir_failed(reason),
            EventView::Probed { name, taken } => self.after_probe(name, taken),
            EventView::NameProbed { taken } => self.after_name_probe(taken),
            EventView::Measured { len } => self.after_measure(len),
            EventView::Opened { both } => self.after_open(both),
            EventView::ChunkRead { bytes, written, elapsed } => self.after_chunk(
                bytes as int,
                written,
                elapsed,
            ),
            EventView::ReadFailed => self.next_file(),
        }
    }

    /// The import of a source, before anything of it is known.
    pub open spec fn started(
        source_index: usize,
        project_label: Seq<char>,
        camera_label: Seq<char>,
        filter: FilterView,
        conflict_res: ConflictResolution,
    ) -> TurnView<P> {
        let job = JobView {
            source_index,
            project_label,
            camera_label,
            filter,
            conflict_res,
            files: Seq::<P>::empty(),
            total_size: 0,
            next: 0,
            copied_size: 0,
            stage: StageView::Walking,
        };
        job.saying(job.report("Scanning for files..."@), ActionView::NextEntry)
    }
}

/// A job stays valid.
pub proof fn lemma_step_valid<P>(job: JobView<P>, event: EventView<P>)
    requires
        job.valid(),
        job.accepts(event),
    ensures
        job.step(event).job.valid(),
{
}

/// Begins the import of a source: its files with one of the extensions, changed
/// within the period, are to be copied into the folder of the camera in the folder of
/// the project.
pub fn start_import<P>(
    source_index: usize,
    project_label: String,
    camera_label: String,
    extensions: Vec<String>,
    start_date: Option<Date>,
    end_date: Option<Date>,
    conflict_res: ConflictResolution,
) -> (turn: ImportTurn<P>)
    ensures
        turn@ == JobView::<P>::started(
            source_index,
            project_label@,
            camera_label@,
            FilterView {
                extensions: texts(extensions@),
                start_date: day(start_date),
                end_date: day(end_date),
            },
            conflict_res,
        ),
        turn.job@.valid(),
{
    let files: Vec<P> = Vec::new();
    let state = State {
        source_index,
        project_label,
        camera_label,
        filter: Filter { extensions, start_date, end_date },
        conflict_res,
        files,
        total_size: 0,
        next: 0,
        copied_size: 0,
        stage: Stage::Walking,
    };
    let message = state.message("Scanning for files...".to_owned());
    let Outcome { state, reports, action } = state.saying(message, ImportAction::NextEntry);
    ImportTurn { job: ImportJob { state }, reports, action }
}

impl<P> State<P> {
    /// A message with the sizes as they stand, and nothing else.
    fn message(&self, status: String) -> (m: ProgressMessage)
        ensures
            m@ == self@.report(status@),
    {
        ProgressMessage {
            source_index: self.source_index,
            status,
            progress_percent: 0,
            speed_bytes_per_sec: 0,
            eta_seconds: None,
            total_size_bytes: self.total_size,
            copied_size_bytes: self.copied_size,
            done: false,
        }
    }

    /// The outcome without a message.
    fn quietly(self, action: ImportAction) -> (turn: Outcome<P>)
        ensures
            turn@ == self@.quietly(action@),
    {
        let reports: Vec<ProgressMessage> = Vec::new();
        assert(messages(reports@) =~= seq![]);
        Outcome { state: self, reports, action }
    }

    /// The outcome with one message.
    fn saying(self, message: ProgressMessage, action: ImportAction) -> (turn: Outcome<P>)
        ensures
            turn@ == self@.saying(message@, action@),
    {
        let mut reports: Vec<ProgressMessage> = Vec::new();
        reports.push(message);
        assert(messages(reports@) =~= seq![message@]);
        Outcome { state: self, reports, action }
    }

    /// A message that also tells how far the copy has come.
    fn message_percent(&self, status: String) -> (m: ProgressMessage)
        ensures
            m@ == self@.report_percent(status@),
    {
        let mut m = self.message(status);
        m.progress_percent = percent(self.copied_size, self.total_size);
        m
    }

    /// The end of the job, with a last message.
    fn ending(self, message: ProgressMessage) -> (turn: Outcome<P>)
        ensures
            turn@ == self@.ending(message@),
    {
        let mut job = self;
        job.stage = Stage::Stopped;
        let mut last = message;
        last.done = true;
        job.saying(last, ImportAction::Stop)
    }

    fn after_entry(self, path: P, entry: Entry) -> (turn: Outcome<P>)
        requires
            self@.filter.selects(entry@) ==> self.total_size + entry@.metadata->Some_0.len
                <= u64::MAX,
        ensures
            turn@ == self@.after_entry(path, entry@),
    {
        let mut job = self;
        if job.filter.selects(&entry) {
            if let Some(info) = entry.metadata {
                job.files.push(path);
                job.total_size = job.total_size + info.len;
            }
        }
        job.quietly(ImportAction::NextEntry)
    }

    fn after_walk(self) -> (turn: Outcome<P>)
        ensures
            turn@ == self@.after_walk(),
    {
        if self.files.len() == 0 {
            let mut m = self.message("No matching files found.".to_owned());
            m.progress_percent = HUNDRED;
            m.total_size_bytes = 0;
            m.copied_size_bytes = 0;
            self.ending(m)
        } else {
            let mut job = self;
            job.stage = Stage::CheckingSpace;
            job.quietly(ImportAction::AskFreeSpace)
        }
    }

    fn after_space(self, bytes: Option<u64>) -> (turn: Outcome<P>)
        ensures
            turn@ == self@.after_space(bytes),
    {
        if let Some(free) = bytes {
            if self.total_size > free.saturating_sub(RESERVE) {
                let mut status = "Error: Not enough space! Need ".to_owned();
                push_decimal(&mut status, (self.total_size / MEGA) as u128);
                status.append(" MB, have ");
                push_decimal(&mut status, (free / MEGA) as u128);
                status.append(" MB");
                let mut m = self.message(status);
                m.progress_percent = HUNDRED;
                m.copied_size_bytes = 0;
                return self.ending(m);
            }
        }
        let mut job = self;
        job.stage = Stage::MakingDir;
        let mut folders: Vec<String> = Vec::new();
        folders.push(job.project_label.clone());
        folders.push(job.camera_label.clone());
        assert(texts(folders@) =~= seq![job.project_label@, job.camera_label@]);
        job.quietly(ImportAction::MakeDir { folders })
    }

    fn after_dir(self) -> (turn: Outcome<P>)
        ensures
            turn@ == self@.after_dir(),
    {
        let mut status = "Found ".to_owned();
        push_decimal(&mut status, self.files.len() as u128);
        status.append(" files to copy");
        let mut m = self.message(status);
        m.copied_size_bytes = 0;
        let mut job = self;
        job.stage = Stage::Starting;
        let index: usize = job.next;
        job.saying(m, ImportAction::ProbeFile { index })
    }

    fn after_dir_failed(self, reason: String) -> (turn: Outcome<P>)
        ensures
            turn@ == self@.after_dir_failed(reason@),
    {
        let mut status = "Error creating dir: ".to_owned();
        status.append(reason.as_str());
        let mut m = self.message(status);
        m.copied_size_bytes = 0;
        self.ending(m)
    }

    fn open_files(self, shown: String, target: Option<String>) -> (turn: Outcome<P>)
        ensures
            turn@ == self@.open_files(
                shown@,
                match target {
                    Some(n) => Some(n@),
                    None => None,
                },
            ),
    {
        let mut status = "Copying ".to_owned();
        status.append(shown.as_str());
        status.append("...");
        let m = self.message_percent(status);
        let mut job = self;
        job.stage = Stage::Opening { name: shown };
        let index: usize = job.next;
        job.saying(m, ImportAction::OpenFiles { index, target })
    }

    fn probe_name(self, name: FileName, counter: i32) -> (turn: Outcome<P>)
        requires
            counter >= 0,
        ensures
            turn@ == self@.probe_name(name@, counter as int),
    {
        let candidate = name.numbered(counter);
        let mut job = self;
        job.stage = Stage::Renaming { file: name, counter };
        job.quietly(ImportAction::ProbeName { name: candidate })
    }

    fn after_probe(self, name: FileName, taken: bool) -> (turn: Outcome<P>)
        ensures
            turn@ == self@.after_probe(name@, taken),
    {
        if taken {
            match self.conflict_res {
                ConflictResolution::Skip => {
                    let mut job = self;
                    job.stage = Stage::Measuring { name: name.shown };
                    let index: usize = job.next;
                    job.quietly(ImportAction::MeasureFile { index })
                },
                ConflictResolution::Rename => self.probe_name(name, 1),
                ConflictResolution::Overwrite => self.open_files(name.shown, None),
            }
        } else {
            self.open_files(name.shown, None)
        }
    }

    fn next_file(self) -> (turn: Outcome<P>)
        requires
            self.next < self.files@.len(),
        ensures
            turn@ == self@.next_file(),
    {
        let mut job = self;
        let count: usize = job.files.len();
        job.next = job.next + 1;
        if job.next < count {
            job.stage = Stage::Starting;
            let index: usize = job.next;
            job.quietly(ImportAction::ProbeFile { index })
        } else {
            let mut m = job.message("Done".to_owned());
            m.progress_percent = HUNDRED;
            job.ending(m)
        }
    }

    fn after_measure(self, name: String, len: Option<u64>) -> (turn: Outcome<P>)
        requires
            self.next < self.files@.len(),
            len matches Some(n) ==> self.copied_size + n <= u64::MAX,
        ensures
            turn@ == self@.at(StageView::Measuring { name: name@ }).after_measure(len),
    {
        let mut job = self;
        if let Some(n) = len {
            job.copied_size = job.copied_size + n;
        }
        let mut status = "Skipped ".to_owned();
        status.append(name.as_str());
        let m = job.message_percent(status);
        let ghost rest = job@.next_file();
        let mut turn = job.next_file();
        turn.reports.insert(0, m);
        assert(messages(turn.reports@) =~= seq![m@] + rest.reports);
        turn
    }

    fn after_chunk(
        self,
        name: String,
        bytes: u64,
        written: bool,
        elapsed: Seconds,
    ) -> (turn: Outcome<P>)
        requires
            self.next < self.files@.len(),
            bytes > 0 && written ==> self.copied_size + bytes <= u64::MAX,
        ensures
            turn@ == self@.at(StageView::Copying { name: name@ }).after_chunk(
                bytes as int,
                written,
                elapsed@,
            ),
    {
        if bytes == 0 || !written {
            return self.next_file();
        }
        let mut job = self;
        job.copied_size = job.copied_size + bytes;
        let mut status = "Copying: ".to_owned();
        status.append(name.as_str());
        job.stage = Stage::Copying { name };
        let mut m = job.message_percent(status);
        let remaining: u64 = job.total_size.saturating_sub(job.copied_size);
        let (speed, eta) = pace(job.copied_size, remaining, elapsed);
        m.speed_bytes_per_sec = speed;
        m.eta_seconds = eta;
        job.saying(m, ImportAction::CopyChunk)
    }

    /// Whether an event answers what the job has asked for, and the sums that follow
    /// from it stay within the machine's integers.
    fn accepts(&self, event: &ImportEvent<P>) -> (b: bool)
        ensures
            b == self@.accepts(event@),
    {
        match (&self.stage, event) {
            (Stage::Walking, ImportEvent::Cancelled) => true,
            (Stage::Walking, ImportEvent::Walked { entry, .. }) => match &entry.metadata {
                Some(info) => info.len <= u64::MAX - self.total_size || !self.filter.selects(entry),
                None => true,
            },
            (Stage::Walking, ImportEvent::WalkEnded) => true,
            (Stage::CheckingSpace, ImportEvent::FreeSpace { .. }) => true,
            (Stage::MakingDir, ImportEvent::DirMade) => true,
            (Stage::MakingDir, ImportEvent::DirFailed { .. }) => true,
            (Stage::Starting, ImportEvent::Cancelled) => true,
            (Stage::Starting, ImportEvent::Probed { .. }) => true,
            (Stage::Measuring { .. }, ImportEvent::Measured { len }) => match len {
                Some(n) => *n <= u64::MAX - self.copied_size,
                None => true,
            },
            (Stage::Renaming { counter, .. }, ImportEvent::NameProbed { taken }) => !*taken
                || *counter < i32::MAX,
            (Stage::Opening { .. }, ImportEvent::Opened { .. }) => true,
            (Stage::Copying { .. }, ImportEvent::Cancelled) => true,
            (Stage::Copying { .. }, ImportEvent::ReadFailed) => true,
            (Stage::Copying { .. }, ImportEvent::ChunkRead { bytes, written, .. }) => *bytes == 0
                || !*written || *bytes <= u64::MAX - self.copied_size,
            (_, _) => false,
        }
    }

    fn step(self, event: ImportEvent<P>) -> (turn: Outcome<P>)
        requires
            self@.valid(),
            self@.accepts(event@),
        ensures
            turn@ == self@.step(event@),
    {
        let mut job = self;
        let mut stage = Stage::Stopped;
        std::mem::swap(&mut job.stage, &mut stage);
        match (stage, event) {
            (Stage::Copying { .. }, ImportEvent::Cancelled) => job.quietly(
                ImportAction::RemoveAndStop,
            ),
            (_, ImportEvent::Cancelled) => job.quietly(ImportAction::Stop),
            (_, ImportEvent::Walked { path, entry }) => {
                job.stage = Stage::Walking;
                job.after_entry(path, entry)
            },
            (_, ImportEvent::WalkEnded) => job.after_walk(),
            (_, ImportEvent::FreeSpace { free }) => job.after_space(free),
            (_, ImportEvent::DirMade) => job.after_dir(),
            (_, ImportEvent::DirFailed { reason }) => job.after_dir_failed(reason),
            (_, ImportEvent::Probed { name, taken }) => job.after_probe(name, taken),
            (Stage::Renaming { file, counter }, ImportEvent::NameProbed { taken }) => if taken {
                job.probe_name(file, counter + 1)
            } else {
                let candidate = file.numbered(counter);
                job.open_files(file.shown, Some(candidate))
            },
            (Stage::Measuring { name }, ImportEvent::Measured { len }) => job.after_measure(
                name,
                len,
            ),
            (Stage::Opening { name }, ImportEvent::Opened { both }) => if both {
                job.stage = Stage::Copying { name };
                job.quietly(ImportAction::CopyChunk)
            } else {
                job.next_file()
            },
            (
                Stage::Copying { name },
                ImportEvent::ChunkRead { bytes, written, elapsed },
            ) => job.after_chunk(name, bytes, written, elapsed),
            (_, ImportEvent::ReadFailed) => job.next_file(),
            // No other event answers what the job has asked for.
            (_, _) => job.quietly(ImportAction::Stop),
        }
    }
}

impl<P> ImportJob<P> {
    #[verifier::type_invariant]
    spec fn well_formed(self) -> bool {
        self.state@.valid()
    }

    /// The files that are meant.
    pub fn filter(&self) -> (filter: &Filter)
        ensures
            filter@ == self@.filter,
    {
        &self.state.filter
    }

    /// The files to copy, in the order of the walk.
    pub fn files(&self) -> (files: &Vec<P>)
        ensures
            files@ == self@.files,
    {
        &self.state.files
    }

    /// The bytes of all files to copy.
    pub fn total_size(&self) -> (size: u64)
        ensures
            size == self@.total_size,
    {
        self.state.total_size
    }

    /// The bytes that are copied or skipped.
    pub fn copied_size(&self) -> (size: u64)
        ensures
            size == self@.copied_size,
    {
        self.state.copied_size
    }

    /// Where the import stands.
    pub fn stage(&self) -> (stage: &Stage)
        ensures
            stage@ == self@.stage,
            self@.valid(),
    {
        proof {
            use_type_invariant(self);
        }
        &self.state.stage
    }

    /// Whether an event answers what the job has asked for, and the sums that follow
    /// from it stay within the machine's integers.
    pub fn accepts(&self, event: &ImportEvent<P>) -> (b: bool)
        ensures
            b == self@.accepts(event@),
    {
        self.state.accepts(event)
    }

    /// The next step of the import.
    pub fn step(self, event: ImportEvent<P>) -> (turn: ImportTurn<P>)
        requires
            self@.accepts(event@),
        ensures
            turn@ == self@.step(event@),
            turn.job@.valid(),
    {
        proof {
            use_type_invariant(&self);
            lemma_step_valid(self@, event@);
        }
        let Outcome { state, reports, action } = self.state.step(event);
        ImportTurn { job: ImportJob { state }, reports, action }
    }
}

} // verus!

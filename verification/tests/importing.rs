use import_utility::date::Date;
use import_utility::filter::{Entry, FileInfo};
use import_utility::importer::{
    start_import, ConflictResolution, FileName, ImportAction, ImportEvent, ImportJob, ImportTurn,
    ProgressMessage, Stage, RESERVE,
};
use import_utility::progress::{Seconds, HUNDRED};

type Job = ImportJob<String>;
type Turn = ImportTurn<String>;
type Event = ImportEvent<String>;

fn begin(conflict_res: ConflictResolution) -> Turn {
    start_import(
        3,
        "Shoot".to_string(),
        "Cam A".to_string(),
        vec!["mp4".to_string(), "wav".to_string()],
        None,
        None,
        conflict_res,
    )
}

fn step(job: Job, event: Event) -> Turn {
    assert!(job.accepts(&event));
    job.step(event)
}

fn found(path: &str, extension: &str, len: u64) -> Event {
    ImportEvent::Walked {
        path: path.to_string(),
        entry: Entry {
            is_file: true,
            extension: Some(extension.to_string()),
            metadata: Some(FileInfo { len, modified: None }),
        },
    }
}

fn name(shown: &str, stem: &str, extension: &str) -> FileName {
    FileName {
        shown: shown.to_string(),
        stem: stem.to_string(),
        extension: extension.to_string(),
    }
}

fn seconds(s: f64) -> Seconds {
    Seconds::from_bits(s.to_bits()).unwrap()
}

/// A job that is about to handle the first of these files.
fn at_first_file(conflict_res: ConflictResolution, files: &[(&str, u64)]) -> Job {
    let mut job = begin(conflict_res).job;
    for (path, len) in files {
        job = step(job, found(path, "mp4", *len)).job;
    }
    job = step(job, ImportEvent::WalkEnded).job;
    job = step(job, ImportEvent::FreeSpace { free: None }).job;
    step(job, ImportEvent::DirMade).job
}

fn plain(m: &ProgressMessage, status: &str, percent: f32, total: u64, copied: u64, done: bool) {
    assert_eq!(m.source_index, 3);
    assert_eq!(m.status, status);
    assert_eq!(f32::from_bits(m.progress_percent), percent);
    assert_eq!(m.speed_bytes_per_sec, 0);
    assert_eq!(m.eta_seconds, None);
    assert_eq!(m.total_size_bytes, total);
    assert_eq!(m.copied_size_bytes, copied);
    assert_eq!(m.done, done);
}

#[test]
fn an_import_begins_with_a_walk() {
    let turn = begin(ConflictResolution::Skip);
    assert_eq!(turn.reports.len(), 1);
    plain(&turn.reports[0], "Scanning for files...", 0.0, 0, 0, false);
    assert!(matches!(turn.action, ImportAction::NextEntry));
}

#[test]
fn the_walk_finds_selected_files_in_order() {
    let mut job = begin(ConflictResolution::Skip).job;
    for (path, extension, len) in
        [("b", "MP4", 10), ("x", "txt", 1000), ("a", "wav", 5), ("c", "mp4", 0)]
    {
        let turn = step(job, found(path, extension, len));
        assert!(turn.reports.is_empty());
        assert!(matches!(turn.action, ImportAction::NextEntry));
        job = turn.job;
    }
    assert_eq!(*job.files(), ["b", "a", "c"]);
    assert_eq!(job.total_size(), 15);
}

#[test]
fn the_walk_heeds_the_period() {
    let day = |d| Date::new(2024, 5, d);
    let turn: Turn = start_import(
        0,
        "p".to_string(),
        "c".to_string(),
        vec!["mp4".to_string()],
        day(10),
        day(11),
        ConflictResolution::Skip,
    );
    let mut job = turn.job;
    for d in 8..=13 {
        let event = ImportEvent::Walked {
            path: d.to_string(),
            entry: Entry {
                is_file: true,
                extension: Some("mp4".to_string()),
                metadata: Some(FileInfo { len: 1, modified: day(d) }),
            },
        };
        job = step(job, event).job;
    }
    assert_eq!(*job.files(), ["10", "11"]);
}

#[test]
fn without_files_an_import_ends() {
    let mut job = begin(ConflictResolution::Skip).job;
    job = step(job, found("x", "txt", 10)).job;
    let turn = step(job, ImportEvent::WalkEnded);
    assert_eq!(turn.reports.len(), 1);
    plain(&turn.reports[0], "No matching files found.", 100.0, 0, 0, true);
    assert!(matches!(turn.action, ImportAction::Stop));
    assert!(matches!(turn.job.stage(), Stage::Stopped));
}

#[test]
fn files_need_room_beside_the_reserve() {
    let at_space = |len| {
        let job = step(begin(ConflictResolution::Skip).job, found("a", "mp4", len)).job;
        let turn = step(job, ImportEvent::WalkEnded);
        assert!(turn.reports.is_empty());
        assert!(matches!(turn.action, ImportAction::AskFreeSpace));
        turn.job
    };
    assert_eq!(RESERVE, 100 * 1024 * 1024);
    let enough = step(at_space(50), ImportEvent::FreeSpace { free: Some(RESERVE + 50) });
    assert!(matches!(enough.action, ImportAction::MakeDir { .. }));
    let nothing = step(at_space(0), ImportEvent::FreeSpace { free: Some(0) });
    assert!(matches!(nothing.action, ImportAction::MakeDir { .. }));
    let unknown = step(at_space(u64::MAX), ImportEvent::FreeSpace { free: None });
    assert!(matches!(unknown.action, ImportAction::MakeDir { .. }));
    let short = step(at_space(50), ImportEvent::FreeSpace { free: Some(RESERVE + 49) });
    plain(
        &short.reports[0],
        "Error: Not enough space! Need 0 MB, have 100 MB",
        100.0,
        50,
        0,
        true,
    );
    assert!(matches!(short.action, ImportAction::Stop));
    let long = step(at_space(5_767_168), ImportEvent::FreeSpace { free: Some(3_145_728) });
    assert_eq!(long.reports[0].status, "Error: Not enough space! Need 5 MB, have 3 MB");
}

#[test]
fn files_go_to_the_camera_in_the_project() {
    let job = step(begin(ConflictResolution::Skip).job, found("a", "mp4", 1)).job;
    let job = step(job, ImportEvent::WalkEnded).job;
    let turn = step(job, ImportEvent::FreeSpace { free: None });
    match turn.action {
        ImportAction::MakeDir { folders } => assert_eq!(folders, ["Shoot", "Cam A"]),
        _ => panic!("no directory"),
    }
    let turn = step(turn.job, ImportEvent::DirMade);
    plain(&turn.reports[0], "Found 1 files to copy", 0.0, 1, 0, false);
    assert!(matches!(turn.action, ImportAction::ProbeFile { index: 0 }));
}

#[test]
fn without_a_directory_an_import_ends() {
    let job = step(begin(ConflictResolution::Skip).job, found("a", "mp4", 7)).job;
    let job = step(job, ImportEvent::WalkEnded).job;
    let job = step(job, ImportEvent::FreeSpace { free: None }).job;
    let turn = step(job, ImportEvent::DirFailed { reason: "denied".to_string() });
    plain(&turn.reports[0], "Error creating dir: denied", 0.0, 7, 0, true);
    assert!(matches!(turn.action, ImportAction::Stop));
}

#[test]
fn a_file_is_copied_in_chunks() {
    let job = at_first_file(ConflictResolution::Skip, &[("a.mp4", 8)]);
    let turn = step(
        job,
        ImportEvent::Probed { name: name("a.mp4", "a", "mp4"), taken: false },
    );
    plain(&turn.reports[0], "Copying a.mp4...", 0.0, 8, 0, false);
    assert!(matches!(turn.action, ImportAction::OpenFiles { index: 0, target: None }));
    let turn = step(turn.job, ImportEvent::Opened { both: true });
    assert!(turn.reports.is_empty());
    assert!(matches!(turn.action, ImportAction::CopyChunk));
    let turn = step(
        turn.job,
        ImportEvent::ChunkRead { bytes: 2, written: true, elapsed: seconds(1.0) },
    );
    let m = &turn.reports[0];
    assert_eq!(m.status, "Copying: a.mp4");
    assert_eq!(f32::from_bits(m.progress_percent), 25.0);
    assert_eq!(f64::from_bits(m.speed_bytes_per_sec), 2.0);
    assert_eq!(m.eta_seconds, Some(3));
    assert_eq!((m.copied_size_bytes, m.total_size_bytes, m.done), (2, 8, false));
    assert!(matches!(turn.action, ImportAction::CopyChunk));
    // The file has grown since the walk.
    let turn = step(
        turn.job,
        ImportEvent::ChunkRead { bytes: 10, written: true, elapsed: seconds(0.0) },
    );
    let m = &turn.reports[0];
    assert_eq!(f32::from_bits(m.progress_percent), 150.0);
    assert_eq!((m.speed_bytes_per_sec, m.eta_seconds), (0, None));
    let turn = step(
        turn.job,
        ImportEvent::ChunkRead { bytes: 0, written: true, elapsed: seconds(2.0) },
    );
    assert_eq!(turn.reports.len(), 1);
    plain(&turn.reports[0], "Done", 100.0, 8, 12, true);
    assert!(matches!(turn.action, ImportAction::Stop));
    assert!(matches!(turn.job.stage(), Stage::Stopped));
}

#[test]
fn files_that_cannot_be_copied_are_passed_over() {
    let copying = || {
        let job = at_first_file(ConflictResolution::Overwrite, &[("a", 4), ("b", 4)]);
        let probed = ImportEvent::Probed { name: name("a", "a", ""), taken: true };
        step(job, probed).job
    };
    let closed = step(copying(), ImportEvent::Opened { both: false });
    assert!(closed.reports.is_empty());
    assert!(matches!(closed.action, ImportAction::ProbeFile { index: 1 }));
    let unread = step(step(copying(), ImportEvent::Opened { both: true }).job, ImportEvent::ReadFailed);
    assert!(matches!(unread.action, ImportAction::ProbeFile { index: 1 }));
    let unwritten = step(
        step(copying(), ImportEvent::Opened { both: true }).job,
        ImportEvent::ChunkRead { bytes: 4, written: false, elapsed: seconds(1.0) },
    );
    assert!(unwritten.reports.is_empty());
    assert_eq!(unwritten.job.copied_size(), 0);
    assert!(matches!(unwritten.action, ImportAction::ProbeFile { index: 1 }));
}

#[test]
fn taken_names_are_skipped() {
    let job = at_first_file(ConflictResolution::Skip, &[("a.mp4", 6), ("b.mp4", 2)]);
    let turn = step(job, ImportEvent::Probed { name: name("a.mp4", "a", "mp4"), taken: true });
    assert!(turn.reports.is_empty());
    assert!(matches!(turn.action, ImportAction::MeasureFile { index: 0 }));
    let turn = step(turn.job, ImportEvent::Measured { len: Some(6) });
    assert_eq!(turn.reports.len(), 1);
    plain(&turn.reports[0], "Skipped a.mp4", 75.0, 8, 6, false);
    assert!(matches!(turn.action, ImportAction::ProbeFile { index: 1 }));
    let turn = step(turn.job, ImportEvent::Probed { name: name("b.mp4", "b", "mp4"), taken: true });
    let turn = step(turn.job, ImportEvent::Measured { len: None });
    assert_eq!(turn.reports.len(), 2);
    plain(&turn.reports[0], "Skipped b.mp4", 75.0, 8, 6, false);
    plain(&turn.reports[1], "Done", 100.0, 8, 6, true);
    assert!(matches!(turn.action, ImportAction::Stop));
}

#[test]
fn taken_names_are_overwritten() {
    let job = at_first_file(ConflictResolution::Overwrite, &[("a.mp4", 6)]);
    let turn = step(job, ImportEvent::Probed { name: name("a.mp4", "a", "mp4"), taken: true });
    assert!(matches!(turn.action, ImportAction::OpenFiles { index: 0, target: None }));
}

#[test]
fn taken_names_get_a_number() {
    let job = at_first_file(ConflictResolution::Rename, &[("a.mp4", 6)]);
    let mut turn = step(job, ImportEvent::Probed { name: name("a.mp4", "a", "mp4"), taken: true });
    for counter in 1..12 {
        match &turn.action {
            ImportAction::ProbeName { name } => assert_eq!(*name, format!("a_{}.mp4", counter)),
            _ => panic!("no name"),
        }
        turn = step(turn.job, ImportEvent::NameProbed { taken: true });
    }
    let turn = step(turn.job, ImportEvent::NameProbed { taken: false });
    assert_eq!(turn.reports[0].status, "Copying a.mp4...");
    match turn.action {
        ImportAction::OpenFiles { index: 0, target: Some(name) } => assert_eq!(name, "a_12.mp4"),
        _ => panic!("not opened"),
    }
}

#[test]
fn numbered_names_without_an_extension() {
    assert_eq!(name("take", "take", "").numbered(1), "take_1");
    assert_eq!(name("take.wav", "take", "wav").numbered(10), "take_10.wav");
    let file = name("take.wav", "take", "wav");
    for a in 0..120 {
        for b in 0..a {
            assert_ne!(file.numbered(a), file.numbered(b));
        }
    }
}

#[test]
fn a_cancelled_import_is_silent() {
    let walking = step(begin(ConflictResolution::Skip).job, ImportEvent::Cancelled);
    assert!(walking.reports.is_empty());
    assert!(matches!(walking.action, ImportAction::Stop));
    let starting = step(at_first_file(ConflictResolution::Skip, &[("a", 1)]), ImportEvent::Cancelled);
    assert!(starting.reports.is_empty());
    assert!(matches!(starting.action, ImportAction::Stop));
    let job = at_first_file(ConflictResolution::Skip, &[("a", 1)]);
    let job = step(job, ImportEvent::Probed { name: name("a", "a", ""), taken: false }).job;
    let job = step(job, ImportEvent::Opened { both: true }).job;
    let copying = step(job, ImportEvent::Cancelled);
    assert!(copying.reports.is_empty());
    assert!(matches!(copying.action, ImportAction::RemoveAndStop));
    assert!(!copying.job.accepts(&ImportEvent::Cancelled));
}

#[test]
fn events_must_answer_and_sums_must_fit() {
    let job = begin(ConflictResolution::Skip).job;
    assert!(!job.accepts(&ImportEvent::DirMade));
    assert!(!job.accepts(&ImportEvent::ReadFailed));
    let job = step(job, found("a", "mp4", u64::MAX)).job;
    assert!(job.accepts(&found("b", "mp4", 0)));
    assert!(!job.accepts(&found("b", "mp4", 1)));
    assert!(job.accepts(&found("b", "txt", 1)));
    let renaming = at_first_file(ConflictResolution::Rename, &[("a", 1)]);
    let taken = ImportEvent::Probed { name: name("a", "a", ""), taken: true };
    let renaming = step(renaming, taken).job;
    assert!(matches!(renaming.stage(), Stage::Renaming { counter: 1, .. }));
    assert!(renaming.accepts(&ImportEvent::NameProbed { taken: true }));
    assert!(!renaming.accepts(&ImportEvent::Opened { both: true }));
}

#[test]
fn a_run_ends_once_and_adds_up() {
    let mut job = at_first_file(ConflictResolution::Skip, &[("a", 5), ("b", 7), ("c", 1)]);
    let mut reports: Vec<ProgressMessage> = Vec::new();
    let events: Vec<Event> = vec![
        ImportEvent::Probed { name: name("a", "a", ""), taken: true },
        ImportEvent::Measured { len: Some(5) },
        ImportEvent::Probed { name: name("b", "b", ""), taken: false },
        ImportEvent::Opened { both: true },
        ImportEvent::ChunkRead { bytes: 4, written: true, elapsed: seconds(1.0) },
        ImportEvent::ChunkRead { bytes: 3, written: true, elapsed: seconds(2.0) },
        ImportEvent::ChunkRead { bytes: 0, written: true, elapsed: seconds(2.0) },
        ImportEvent::Probed { name: name("c", "c", ""), taken: false },
        ImportEvent::Opened { both: false },
    ];
    for event in events {
        let turn = step(job, event);
        reports.extend(turn.reports);
        job = turn.job;
    }
    assert!(matches!(job.stage(), Stage::Stopped));
    assert_eq!(job.copied_size(), 12);
    let ends: Vec<usize> = (0..reports.len()).filter(|i| reports[*i].done).collect();
    assert_eq!(ends, [reports.len() - 1]);
    assert_eq!(reports.last().unwrap().progress_percent, HUNDRED);
    let percents: Vec<f32> = reports.iter().map(|m| f32::from_bits(m.progress_percent)).collect();
    assert!(percents.windows(2).all(|w| w[0] <= w[1]));
    assert_eq!(percents[0], 5f32 / 13f32 * 100.0);
    assert!(reports.iter().all(|m| m.source_index == 3 && m.total_size_bytes == 13));
}

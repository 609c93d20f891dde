use import_utility::filter::{Entry, FileInfo};
use import_utility::importer::{
    start_import, ConflictResolution, FileName, ImportAction, ImportEvent, ImportTurn,
    ProgressMessage,
};
use import_utility::progress::{percent, Seconds};
use std::collections::BTreeMap;

type Disk = BTreeMap<String, Vec<u8>>;

const CHUNK: usize = 4;

fn name_of(path: &str) -> String {
    path.rsplit('/').next().unwrap().to_string()
}

fn file_name(path: &str) -> FileName {
    let shown = name_of(path);
    let (stem, extension) = shown.rsplit_once('.').unwrap();
    FileName { shown: shown.clone(), stem: stem.to_string(), extension: extension.to_string() }
}

/// Runs an import on a disk in memory, and stops it before the given event.
fn run(
    disk: &mut Disk,
    sources: &[&str],
    conflict_res: ConflictResolution,
    cancel_at: Option<usize>,
    mut check: impl FnMut(&Disk),
) -> Vec<ProgressMessage> {
    let mut walk = sources.iter();
    let mut dest = String::new();
    let mut read = 0;
    let mut current = 0;
    let mut messages: Vec<ProgressMessage> = Vec::new();
    let mut turn: ImportTurn<String> = start_import(
        0,
        "p".to_string(),
        "c".to_string(),
        vec!["mp4".to_string()],
        None,
        None,
        conflict_res,
    );
    for count in 0.. {
        messages.extend(turn.reports);
        let job = turn.job;
        let mut event = match turn.action {
            ImportAction::NextEntry => match walk.next() {
                None => ImportEvent::WalkEnded,
                Some(path) => ImportEvent::Walked {
                    path: path.to_string(),
                    entry: Entry {
                        is_file: true,
                        extension: Some("mp4".to_string()),
                        metadata: Some(FileInfo { len: disk[*path].len() as u64, modified: None }),
                    },
                },
            },
            ImportAction::AskFreeSpace => ImportEvent::FreeSpace { free: None },
            ImportAction::MakeDir { .. } => ImportEvent::DirMade,
            ImportAction::ProbeFile { index } => {
                let path = &job.files()[index];
                let taken = disk.contains_key(&format!("out/{}", name_of(path)));
                ImportEvent::Probed { name: file_name(path), taken }
            }
            ImportAction::ProbeName { name } => {
                ImportEvent::NameProbed { taken: disk.contains_key(&format!("out/{}", name)) }
            }
            ImportAction::MeasureFile { index } => {
                ImportEvent::Measured { len: Some(disk[&job.files()[index]].len() as u64) }
            }
            ImportAction::OpenFiles { index, target } => {
                let name = target.unwrap_or_else(|| name_of(&job.files()[index]));
                dest = format!("out/{}", name);
                disk.insert(dest.clone(), Vec::new());
                read = 0;
                current = index;
                ImportEvent::Opened { both: true }
            }
            ImportAction::CopyChunk => {
                let data = &disk[&job.files()[current]];
                let end = data.len().min(read + CHUNK);
                let chunk: Vec<u8> = data[read..end].to_vec();
                disk.get_mut(&dest).unwrap().extend(&chunk);
                read = end;
                ImportEvent::ChunkRead {
                    bytes: chunk.len() as u64,
                    written: true,
                    elapsed: Seconds::from_bits(1f64.to_bits()).unwrap(),
                }
            }
            ImportAction::RemoveAndStop => {
                disk.remove(&dest);
                check(disk);
                return messages;
            }
            ImportAction::Stop => return messages,
        };
        check(disk);
        if cancel_at.map_or(false, |n| n <= count) && job.accepts(&ImportEvent::Cancelled) {
            event = ImportEvent::Cancelled;
        }
        assert!(job.accepts(&event));
        turn = job.step(event);
    }
    messages
}

fn sample() -> Disk {
    let mut disk = Disk::new();
    for (path, text) in [
        ("a/one.mp4", "first of a"),
        ("a/two.mp4", ""),
        ("b/one.mp4", "first of b, and longer"),
        ("b/three.mp4", "x"),
        ("out/one.mp4", "old"),
        ("out/one_1.mp4", "older"),
        ("out/else.txt", "other"),
    ] {
        disk.insert(path.to_string(), text.as_bytes().to_vec());
    }
    disk
}

const SOURCES: [&str; 4] = ["a/one.mp4", "a/two.mp4", "b/one.mp4", "b/three.mp4"];

#[test]
fn what_was_there_stays_unless_overwritten() {
    let first = sample();
    for conflict_res in [ConflictResolution::Skip, ConflictResolution::Rename] {
        for cancel_at in (0..40).map(Some).chain([None]) {
            let mut disk = first.clone();
            run(&mut disk, &SOURCES, conflict_res, cancel_at, |now| {
                assert!(first.iter().all(|(path, data)| now.get(path) == Some(data)));
            });
        }
    }
}

#[test]
fn files_are_copied_whole() {
    let mut disk = sample();
    run(&mut disk, &SOURCES, ConflictResolution::Rename, None, |_| {});
    assert_eq!(disk["out/one_2.mp4"], disk["a/one.mp4"]);
    assert_eq!(disk["out/one_3.mp4"], disk["b/one.mp4"]);
    assert_eq!(disk["out/two.mp4"], disk["a/two.mp4"]);
    assert_eq!(disk["out/three.mp4"], disk["b/three.mp4"]);
    assert_eq!(disk.len(), 11);
    let mut disk = sample();
    run(&mut disk, &SOURCES, ConflictResolution::Overwrite, None, |_| {});
    assert_eq!(disk["out/one.mp4"], disk["b/one.mp4"]);
    assert_eq!(disk["out/one_1.mp4"], b"older");
    let mut disk = sample();
    disk.remove("out/one.mp4");
    run(&mut disk, &SOURCES, ConflictResolution::Skip, None, |_| {});
    assert_eq!(disk["out/one.mp4"], disk["a/one.mp4"]);
    assert_eq!(disk["out/two.mp4"], disk["a/two.mp4"]);
    assert_eq!(disk["out/three.mp4"], disk["b/three.mp4"]);
    assert_eq!(disk.len(), 9);
}

#[test]
fn messages_fit_one_another() {
    for conflict_res in
        [ConflictResolution::Skip, ConflictResolution::Rename, ConflictResolution::Overwrite]
    {
        let told = run(&mut sample(), &SOURCES, conflict_res, None, |_| {});
        assert_eq!(told[0].status, "Scanning for files...");
        assert_eq!(told[1].status, "Found 4 files to copy");
        let total = 10 + 22 + 1;
        assert!(told[1..].iter().all(|m| m.total_size_bytes == total));
        assert!(told.iter().all(|m| m.copied_size_bytes <= total));
        assert!(told.windows(2).all(|w| w[0].copied_size_bytes <= w[1].copied_size_bytes));
        for m in told.iter().filter(|m| !m.done) {
            assert_eq!(m.progress_percent, percent(m.copied_size_bytes, m.total_size_bytes));
        }
        let last = told.last().unwrap();
        assert!(last.done);
        assert_eq!(last.copied_size_bytes, total);
    }
}

use import_utility::date::Date;
use import_utility::filter::{Entry, FileInfo};
use import_utility::scan::{start_scan, ScanEvent, ScanJob, ScanResult, ScanTurn};

fn begin() -> ScanJob {
    let (job, message) = start_scan(
        "Cam".to_string(),
        vec!["mp4".to_string(), "WAV".to_string(), "\u{e4}X".to_string()],
        None,
        Date::new(2024, 12, 31),
    );
    assert!(!message.is_done);
    assert_eq!(message.status, "Scanning...");
    assert!(message.results.is_empty());
    job
}

fn entry(extension: &str, modified: Option<Date>, len: u64) -> Entry {
    Entry {
        is_file: true,
        extension: Some(extension.to_string()),
        metadata: Some(FileInfo { len, modified }),
    }
}

fn walk(job: ScanJob, entry: Entry) -> ScanJob {
    match job.step(ScanEvent::Walked { entry }) {
        ScanTurn::Next { job } => job,
        _ => panic!("the scan does not go on"),
    }
}

fn results(job: ScanJob) -> Vec<ScanResult> {
    match job.step(ScanEvent::WalkEnded) {
        ScanTurn::Stop { message: Some(message) } => {
            assert!(message.is_done);
            assert_eq!(message.status, "Done");
            message.results
        }
        _ => panic!("no results"),
    }
}

fn row(date: &str, extension: &str, count: usize, total_size: u64) -> ScanResult {
    ScanResult {
        camera_label: "Cam".to_string(),
        date: date.to_string(),
        extension: extension.to_string(),
        count,
        total_size,
    }
}

fn samples() -> Vec<Entry> {
    vec![
        entry("wav", Date::new(2024, 3, 9), 5),
        entry("MP4", Date::new(2024, 3, 10), 100),
        entry("mp4", None, 7),
        entry("mp4", Date::new(2024, 3, 10), 20),
        entry("txt", Date::new(2024, 3, 10), 1),
        entry("Mp4", Date::new(2024, 3, 9), 3),
        entry("mp4", Date::new(2025, 1, 1), 1000),
        entry("wav", Date::new(2023, 11, 1), 0),
    ]
}

#[test]
fn files_are_counted_by_day_and_extension() {
    let mut job = begin();
    for e in samples() {
        job = walk(job, e);
    }
    assert_eq!(
        results(job),
        [
            row("2023-11-01", "wav", 1, 0),
            row("2024-03-09", "mp4", 1, 3),
            row("2024-03-09", "wav", 1, 5),
            row("2024-03-10", "mp4", 2, 120),
            row("Unknown", "mp4", 1, 7),
        ]
    );
}

#[test]
fn the_order_of_a_walk_does_not_matter() {
    let mut forward = begin();
    for e in samples() {
        forward = walk(forward, e);
    }
    let mut backward = begin();
    for e in samples().into_iter().rev() {
        backward = walk(backward, e);
    }
    assert_eq!(results(forward), results(backward));
}

#[test]
fn extensions_are_shown_in_lower_case() {
    let job = walk(begin(), entry("WaV", None, 1));
    assert_eq!(results(job), [row("Unknown", "wav", 1, 1)]);
    // Beyond ASCII too, though there the list must have the letter as it is.
    let mut job = begin();
    job = walk(job, entry("\u{e4}x", None, 1));
    job = walk(job, entry("\u{c4}X", None, 1));
    assert_eq!(results(job), [row("Unknown", "\u{e4}x", 1, 1)]);
    let (job, _) = start_scan("Cam".to_string(), vec!["\u{c4}".to_string()], None, None);
    let job = walk(job, entry("\u{c4}", None, 1));
    assert_eq!(results(job), [row("Unknown", "\u{e4}", 1, 1)]);
}

#[test]
fn an_empty_walk_has_no_results() {
    assert!(results(begin()).is_empty());
}

#[test]
fn a_cancelled_scan_is_silent() {
    let job = walk(begin(), entry("mp4", None, 1));
    assert!(matches!(job.step(ScanEvent::Cancelled), ScanTurn::Stop { message: None }));
}

#[test]
fn sums_must_fit() {
    let job = walk(begin(), entry("mp4", None, u64::MAX));
    assert!(job.can_count(&"Unknown".to_string(), &"mp4".to_string(), 0));
    assert!(!job.can_count(&"Unknown".to_string(), &"mp4".to_string(), 1));
    assert!(job.can_count(&"Unknown".to_string(), &"wav".to_string(), 1));
    assert!(matches!(
        job.step(ScanEvent::Walked { entry: entry("mp4", None, 1) }),
        ScanTurn::Overflow
    ));
    let job = walk(begin(), entry("mp4", None, u64::MAX));
    assert!(matches!(
        job.step(ScanEvent::Walked { entry: entry("txt", None, 1) }),
        ScanTurn::Next { .. }
    ));
}

#[test]
fn files_are_counted_one_by_one() {
    let mut job = begin();
    for i in 0..5u64 {
        job = job.add("d".to_string(), "e".to_string(), i);
    }
    job = job.add("c".to_string(), "z".to_string(), 9);
    assert_eq!(results(job), [row("c", "z", 1, 9), row("d", "e", 5, 10)]);
}

#[test]
fn scan_and_import_agree() {
    let mut job = begin();
    let filter_selects: Vec<bool> = samples().iter().map(|e| job.filter().selects(e)).collect();
    let selected: Vec<u64> = samples()
        .iter()
        .zip(&filter_selects)
        .filter(|(_, s)| **s)
        .map(|(e, _)| e.metadata.unwrap().len)
        .collect();
    for e in samples() {
        job = walk(job, e);
    }
    let rows = results(job);
    assert_eq!(rows.iter().map(|r| r.count).sum::<usize>(), selected.len());
    assert_eq!(rows.iter().map(|r| r.total_size).sum::<u64>(), selected.iter().sum::<u64>());
}

#[test]
fn a_period_keeps_or_drops_whole_rows() {
    let scan = |start: Option<Date>, end: Option<Date>| {
        let extensions = vec!["mp4".to_string(), "wav".to_string()];
        let mut job = start_scan("Cam".to_string(), extensions, start, end).0;
        for e in samples() {
            job = walk(job, e);
        }
        results(job)
    };
    let all = scan(None, None);
    assert_eq!(all.len(), 6);
    let days = [
        ("2023-11-01", Date::new(2023, 11, 1)),
        ("2024-03-09", Date::new(2024, 3, 9)),
        ("2024-03-10", Date::new(2024, 3, 10)),
        ("2025-01-01", Date::new(2025, 1, 1)),
    ];
    for (first, start) in days {
        for (last, end) in days {
            let kept: Vec<ScanResult> = all
                .iter()
                .filter(|r| r.date == "Unknown" || (first <= &r.date[..] && &r.date[..] <= last))
                .cloned()
                .collect();
            assert_eq!(scan(start, end), kept);
        }
    }
    assert_eq!(scan(days[1].1, days[0].1), [row("Unknown", "mp4", 1, 7)]);
}

#[test]
fn the_list_of_extensions_is_a_set() {
    let scan = |extensions: &[&str]| {
        let extensions = extensions.iter().map(|e| e.to_string()).collect();
        let mut job = start_scan("Cam".to_string(), extensions, None, None).0;
        for e in samples() {
            job = walk(job, e);
        }
        results(job)
    };
    let rows = scan(&["mp4", "wav"]);
    assert_eq!(rows.len(), 6);
    assert_eq!(scan(&["wav", "mp4"]), rows);
    assert_eq!(scan(&["WAV", "mP4", "Mp4", "wav"]), rows);
    assert_ne!(scan(&["mp4"]), rows);
}

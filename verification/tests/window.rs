use import_utility::app::{scan_row, AppState, Buttons, ImportUtilityApp};
use import_utility::date::Date;
use import_utility::importer::{ConflictResolution, ProgressMessage};
use import_utility::scan::{ScanMessage, ScanResult};

type App = ImportUtilityApp<String>;

fn today() -> Date {
    Date::new(2024, 6, 1).unwrap()
}

fn with_sources(paths: &[&str]) -> App {
    let mut app = App::new(today(), None);
    for path in paths {
        app.add_source(path.to_string(), format!("at {}", path), format!("cam {}", path));
    }
    app
}

fn ready(paths: &[&str]) -> App {
    let mut app = with_sources(paths);
    app.set_dest_input(" /out ".to_string());
    app.sync_destination();
    app.set_project_label("Shoot".to_string());
    app
}

fn told(source_index: usize, status: &str, done: bool) -> ProgressMessage {
    ProgressMessage {
        source_index,
        status: status.to_string(),
        progress_percent: 25f32.to_bits(),
        speed_bytes_per_sec: 1536f64.to_bits(),
        eta_seconds: Some(61),
        total_size_bytes: 4096,
        copied_size_bytes: 1024,
        done,
    }
}

fn result(camera: &str) -> ScanResult {
    ScanResult {
        camera_label: camera.to_string(),
        date: "2024-01-01".to_string(),
        extension: "mp4".to_string(),
        count: 3,
        total_size: 2048,
    }
}

#[test]
fn a_new_window() {
    let app = App::new(today(), None);
    assert!(app.sources.is_empty());
    assert_eq!(app.destination, None);
    assert_eq!(app.project_label, "");
    assert_eq!(app.conflict_res, ConflictResolution::Skip);
    assert_eq!(app.extensions_input, "mp4, mkv, nev, wav");
    assert_eq!(app.start_date, today());
    assert_eq!(app.end_date, today());
    assert!(!app.filter_start_date && !app.filter_end_date && !app.busy() && !app.cancelled);
    assert!(!app.shows_scans() && !app.shows_progress());
    assert_eq!(app.buttons(), Buttons { cancel: false, scan: false, import: false });
}

#[test]
fn what_is_kept_survives() {
    let mut app = ready(&["a"]);
    app.set_conflict_res(ConflictResolution::Rename);
    app.set_extensions_input("mov".to_string());
    app.set_filter_end_date(true);
    let kept = app.save();
    assert_eq!(kept.destination.as_deref(), Some("/out"));
    let mut again = App::new(Date::new(2025, 1, 1).unwrap(), Some(kept));
    assert_eq!(again.dest_input, "/out");
    assert!(again.sources.is_empty());
    again.sync_destination();
    let kept = again.save();
    assert_eq!(kept.destination.as_deref(), Some("/out"));
    assert_eq!(kept.project_label, "Shoot");
    assert_eq!(kept.conflict_res, ConflictResolution::Rename);
    assert_eq!(kept.extensions_input, "mov");
    assert!(!kept.filter_start_date);
    assert!(kept.filter_end_date);
}

#[test]
fn a_window_without_a_kept_destination() {
    let kept = AppState {
        destination: None,
        project_label: "p".to_string(),
        conflict_res: ConflictResolution::Overwrite,
        extensions_input: "".to_string(),
        filter_start_date: true,
        filter_end_date: false,
    };
    let app = App::new(today(), Some(kept));
    assert_eq!(app.destination, None);
    assert_eq!(app.dest_input, "");
    assert_eq!(app.project_label, "p");
    assert_eq!(app.conflict_res, ConflictResolution::Overwrite);
    assert!(app.filter_start_date);
}

#[test]
fn sources_are_added_once() {
    let mut app = with_sources(&["a", "b", "a"]);
    let paths: Vec<&str> = app.sources.iter().map(|s| s.path.as_str()).collect();
    assert_eq!(paths, ["a", "b"]);
    assert_eq!(app.sources[1].shown, "at b");
    app.remove_source(5);
    app.remove_source(0);
    assert_eq!(app.sources.len(), 1);
    app.set_label(0, "left".to_string());
    assert_eq!(app.sources[0].label, "left");
}

#[test]
fn typed_sources() {
    let mut app = App::new(today(), None);
    app.set_new_source_input("  ".to_string());
    assert_eq!(app.typed_source(), None);
    app.add_typed_source("x".to_string(), "x".to_string(), "x".to_string());
    assert!(app.sources.is_empty());
    assert_eq!(app.new_source_input, "  ");
    app.set_new_source_input(" /media/card ".to_string());
    assert_eq!(app.typed_source().as_deref(), Some("/media/card"));
    for _ in 0..2 {
        app.set_new_source_input(" /media/card ".to_string());
        app.add_typed_source("/media/card".to_string(), "s".to_string(), "card".to_string());
        assert_eq!(app.sources.len(), 1);
        assert_eq!(app.new_source_input, "");
    }
}

#[test]
fn destinations() {
    let mut app = with_sources(&["a"]);
    app.set_dest_input(" \t".to_string());
    app.sync_destination();
    assert_eq!(app.destination, None);
    app.pick_destination("/picked".to_string());
    assert_eq!(app.dest_input, "/picked");
    app.sync_destination();
    assert_eq!(app.destination.as_deref(), Some("/picked"));
}

#[test]
fn imports_need_sources_a_destination_and_a_project() {
    assert!(ready(&["a"]).ready_to_start());
    assert!(!ready(&[]).ready_to_start());
    let mut app = ready(&["a"]);
    app.set_project_label(" \u{a0}".to_string());
    assert!(!app.ready_to_start());
    assert!(app.ready_to_scan());
    assert!(app.start_import().is_empty());
    assert!(!app.is_importing);
    let mut app = ready(&["a"]);
    app.set_dest_input("".to_string());
    app.sync_destination();
    assert_eq!(app.buttons(), Buttons { cancel: false, scan: true, import: false });
}

#[test]
fn imports_of_all_sources_are_begun() {
    let mut app = ready(&["a", "b"]);
    app.set_filter_start_date(true);
    app.set_start_date(Date::new(2024, 1, 2).unwrap());
    app.set_end_date(Date::new(2024, 1, 3).unwrap());
    app.set_extensions_input("mov, MP4".to_string());
    app.set_conflict_res(ConflictResolution::Rename);
    let requests = app.start_import();
    assert_eq!(requests.len(), 2);
    for (i, r) in requests.iter().enumerate() {
        assert_eq!(r.source, i);
        assert_eq!(r.destination, "/out");
        assert_eq!(r.project_label, "Shoot");
        assert_eq!(r.camera_label, app.sources[i].label);
        assert_eq!(r.extensions, ["mov", "MP4"]);
        assert_eq!(r.start_date, Date::new(2024, 1, 2));
        assert_eq!(r.end_date, None);
        assert_eq!(r.conflict_res, ConflictResolution::Rename);
    }
    assert!(app.is_importing && app.shows_progress() && !app.cancelled);
    assert_eq!(app.progress_states.len(), 2);
    assert_eq!(app.progress_states[1].path, "at b");
    assert_eq!(app.progress_states[1].status, "Waiting...");
    assert_eq!(app.progress_states[1].detail(), None);
    // The last day is taken over only where one counts.
    assert_eq!(app.end_date, today());
}

#[test]
fn imports_tell_how_they_stand() {
    let mut app = ready(&["a", "b"]);
    app.start_import();
    app.receive_progress(vec![told(0, "x", false), told(7, "lost", true), told(0, "y", false)]);
    assert_eq!(app.progress_states[0].status, "y");
    assert_eq!(app.progress_states[0].path, "at a");
    assert_eq!(
        app.progress_states[0].detail().as_deref(),
        Some("1.0 KB / 4.0 KB | 1.5 KB/s | ETA: 1m 1s")
    );
    assert_eq!(app.progress_states[1].status, "Waiting...");
    assert!(app.is_importing);
    app.receive_progress(vec![told(1, "Done", true)]);
    assert!(app.is_importing);
    app.receive_progress(vec![told(0, "Done", true)]);
    assert!(!app.is_importing);
    assert_eq!(app.progress_states[0].detail(), None);
    app.receive_progress(vec![told(0, "late", false)]);
    assert_eq!(app.progress_states[0].status, "Done");
}

#[test]
fn messages_at_once_or_in_parts() {
    let mut at_once = ready(&["a", "b"]);
    at_once.start_import();
    at_once.receive_progress(vec![told(1, "p", false), told(0, "q", true), told(1, "r", false)]);
    let mut parts = ready(&["a", "b"]);
    parts.start_import();
    parts.receive_progress(vec![told(1, "p", false)]);
    parts.receive_progress(vec![told(0, "q", true), told(1, "r", false)]);
    for i in 0..2 {
        assert_eq!(at_once.progress_states[i].status, parts.progress_states[i].status);
        assert_eq!(at_once.progress_states[i].done, parts.progress_states[i].done);
    }
}

#[test]
fn detail_needs_progress() {
    let mut app = ready(&["a"]);
    app.start_import();
    for (percent, shown) in [(0f32, false), (-1.0, false), (f32::NAN, false), (0.1, true),
        (f32::INFINITY, true)]
    {
        let mut m = told(0, "x", false);
        m.progress_percent = percent.to_bits();
        app.receive_progress(vec![m]);
        assert_eq!(app.progress_states[0].detail().is_some(), shown);
    }
}

#[test]
fn scans_of_all_sources() {
    let mut app = with_sources(&["a", "b"]);
    app.scan_results.push(result("old"));
    let requests = app.start_scan();
    assert_eq!(requests.len(), 2);
    assert_eq!(requests[1].source, 1);
    assert_eq!(requests[1].camera_label, "cam b");
    assert_eq!(requests[1].extensions, ["mp4", "mkv", "nev", "wav"]);
    assert_eq!((requests[1].start_date, requests[1].end_date), (None, None));
    assert!(app.is_scanning && app.scan_results.is_empty());
    assert_eq!(app.scan_status, "Starting scan...");
    assert_eq!(app.active_scans, 2);
    let message = |is_done: bool, results| ScanMessage {
        is_done,
        status: if is_done { "Done" } else { "Scanning..." }.to_string(),
        results,
    };
    app.receive_scans(vec![message(false, vec![]), message(true, vec![result("b")])]);
    assert_eq!(app.scan_status, "Scanning...");
    assert!(app.is_scanning);
    app.receive_scans(vec![message(true, vec![result("a"), result("a2")])]);
    assert!(!app.is_scanning);
    assert_eq!(app.scan_status, "Scan complete.");
    assert_eq!(app.active_scans, 0);
    let cameras: Vec<&str> = app.scan_results.iter().map(|r| r.camera_label.as_str()).collect();
    assert_eq!(cameras, ["b", "a", "a2"]);
    assert!(app.shows_scans());
    app.receive_scans(vec![message(true, vec![result("late")])]);
    assert_eq!(app.scan_results.len(), 3);
}

#[test]
fn without_sources_no_scan_begins() {
    let mut app = App::new(today(), None);
    assert!(app.start_scan().is_empty());
    assert!(!app.is_scanning);
}

#[test]
fn rows_of_scan_results() {
    assert_eq!(scan_row(&result("Cam")), ["Cam", "2024-01-01", "mp4", "3", "2.0 KB"]);
}

#[test]
fn nothing_is_edited_while_something_runs() {
    let mut app = ready(&["a"]);
    app.set_filter_start_date(true);
    app.start_scan();
    assert_eq!(app.buttons(), Buttons { cancel: true, scan: false, import: false });
    app.add_source("b".to_string(), "b".to_string(), "b".to_string());
    app.remove_source(0);
    app.set_label(0, "x".to_string());
    app.set_project_label("x".to_string());
    app.set_dest_input("x".to_string());
    app.pick_destination("x".to_string());
    app.set_extensions_input("x".to_string());
    app.set_new_source_input("x".to_string());
    app.set_start_date(Date::new(2000, 1, 1).unwrap());
    assert_eq!(app.typed_source(), None);
    assert_eq!(app.sources.len(), 1);
    assert_eq!(app.sources[0].label, "cam a");
    assert_eq!(app.project_label, "Shoot");
    assert_eq!(app.dest_input, " /out ");
    assert_eq!(app.extensions_input, "mp4, mkv, nev, wav");
    assert_eq!(app.new_source_input, "");
    assert_eq!(app.start_date, today());
    // These can be changed at any time.
    app.set_conflict_res(ConflictResolution::Overwrite);
    app.set_filter_start_date(false);
    assert_eq!(app.conflict_res, ConflictResolution::Overwrite);
    assert!(!app.filter_start_date);
}

#[test]
fn stopping() {
    let mut app = ready(&["a"]);
    app.cancel();
    assert!(!app.cancelled);
    app.start_import();
    app.cancel();
    assert!(app.cancelled && app.is_importing);
    app.start_scan();
    assert!(!app.cancelled);
    let mut app = App::new(today(), None);
    app.on_exit();
    assert!(app.cancelled);
}

#[test]
fn paths_are_compared_as_paths() {
    let mut app: ImportUtilityApp<std::path::PathBuf> = ImportUtilityApp::new(today(), None);
    for path in ["/a/b", "/a/b/", "/a//b", "/a/c"] {
        app.add_source(path.into(), path.to_string(), format!("cam {}", path));
    }
    app.set_new_source_input(" /a/c/ ".to_string());
    app.add_typed_source("/a/c/".into(), "/a/c/".to_string(), "again".to_string());
    assert_eq!(app.new_source_input, "");
    let labels: Vec<&str> = app.sources.iter().map(|s| s.label.as_str()).collect();
    assert_eq!(labels, ["cam /a/b", "cam /a/c"]);
    app.start_scan();
    app.add_source("/d".into(), "/d".to_string(), "d".to_string());
    assert_eq!(app.sources.len(), 2);
}

use import_utility::date::Date;
use import_utility::filter::{Entry, FileInfo, Filter};

fn date(year: i32, month: u32, day: u32) -> Date {
    Date::new(year, month, day).unwrap()
}

fn entry(extension: &str, modified: Option<Date>) -> Entry {
    Entry {
        is_file: true,
        extension: Some(extension.to_string()),
        metadata: Some(FileInfo { len: 10, modified }),
    }
}

fn filter(extensions: &[&str], start_date: Option<Date>, end_date: Option<Date>) -> Filter {
    Filter { extensions: extensions.iter().map(|e| e.to_string()).collect(), start_date, end_date }
}

#[test]
fn extensions_match_in_any_case() {
    let f = filter(&["mp4", "WAV"], None, None);
    assert!(f.lists("mp4"));
    assert!(f.lists("MP4"));
    assert!(f.lists("wav"));
    assert!(!f.lists("mp"));
    assert!(!f.lists(""));
    assert!(!filter(&[], None, None).lists("mp4"));
    // Only the case of ASCII letters is ignored.
    assert!(!filter(&["\u{e9}"], None, None).lists("\u{c9}"));
}

#[test]
fn the_ends_of_a_period_belong_to_it() {
    let f = filter(&["mp4"], Some(date(2024, 1, 10)), Some(date(2024, 1, 20)));
    assert!(!f.covers(Some(date(2024, 1, 9))));
    assert!(f.covers(Some(date(2024, 1, 10))));
    assert!(f.covers(Some(date(2024, 1, 15))));
    assert!(f.covers(Some(date(2024, 1, 20))));
    assert!(!f.covers(Some(date(2024, 1, 21))));
    assert!(f.covers(None));
}

#[test]
fn a_period_may_be_open() {
    let from = filter(&["mp4"], Some(date(2024, 1, 10)), None);
    assert!(!from.covers(Some(date(2023, 12, 31))));
    assert!(from.covers(Some(date(9999, 1, 1))));
    let until = filter(&["mp4"], None, Some(date(2024, 1, 10)));
    assert!(until.covers(Some(date(-5, 1, 1))));
    assert!(!until.covers(Some(date(2024, 1, 11))));
    assert!(filter(&["mp4"], None, None).covers(Some(date(1, 1, 1))));
    // A period that ends before it begins holds no day.
    let none = filter(&["mp4"], Some(date(2024, 1, 2)), Some(date(2024, 1, 1)));
    assert!(!none.covers(Some(date(2024, 1, 1))));
    assert!(!none.covers(Some(date(2024, 1, 2))));
}

#[test]
fn entries_are_selected() {
    let f = filter(&["mp4"], Some(date(2024, 1, 10)), None);
    assert!(f.selects(&entry("mp4", Some(date(2024, 1, 10)))));
    assert!(f.selects(&entry("Mp4", None)));
    assert!(!f.selects(&entry("mp4", Some(date(2024, 1, 9)))));
    assert!(!f.selects(&entry("mkv", Some(date(2024, 1, 10)))));
    let mut folder = entry("mp4", None);
    folder.is_file = false;
    assert!(!f.selects(&folder));
    let mut bare = entry("mp4", None);
    bare.extension = None;
    assert!(!f.selects(&bare));
    let mut unreadable = entry("mp4", None);
    unreadable.metadata = None;
    assert!(!f.selects(&unreadable));
}

#[test]
fn a_period_has_a_first_or_a_last_day() {
    let day = Some(date(2024, 1, 1));
    assert!(!filter(&["mp4"], None, None).is_dated());
    assert!(filter(&["mp4"], day, None).is_dated());
    assert!(filter(&["mp4"], None, day).is_dated());
    assert!(filter(&["mp4"], day, day).is_dated());
}

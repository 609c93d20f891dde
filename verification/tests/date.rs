use import_utility::date::Date;

#[test]
fn days_of_the_calendar() {
    assert!(Date::new(2024, 2, 29).is_some());
    assert!(Date::new(2023, 2, 29).is_none());
    assert!(Date::new(1900, 2, 29).is_none());
    assert!(Date::new(2000, 2, 29).is_some());
    assert!(Date::new(2023, 4, 31).is_none());
    assert!(Date::new(2023, 0, 1).is_none());
    assert!(Date::new(2023, 13, 1).is_none());
    assert!(Date::new(2023, 1, 0).is_none());
    assert!(Date::new(2023, 1, 32).is_none());
    assert!(Date::new(262_142, 12, 31).is_some());
    assert!(Date::new(262_143, 1, 1).is_none());
    assert!(Date::new(-262_143, 1, 1).is_some());
    assert!(Date::new(-262_144, 12, 31).is_none());
    assert!(Date::new(i32::MAX, 1, 1).is_none());
    assert!(Date::new(i32::MIN, 1, 1).is_none());
    let d = Date::new(2024, 7, 9).unwrap();
    assert_eq!((d.year(), d.month(), d.day()), (2024, 7, 9));
}

#[test]
fn every_month_has_its_days() {
    for year in [-400, -4, -1, 0, 1, 4, 100, 400, 1999, 2000, 2023, 2024, 9999, 10_000] {
        let leap = year % 4 == 0 && (year % 100 != 0 || year % 400 == 0);
        for (month, days) in [31, if leap { 29 } else { 28 }, 31, 30, 31, 30, 31, 31, 30, 31, 30, 31]
            .into_iter()
            .enumerate()
        {
            let month = month as u32 + 1;
            assert!(Date::new(year, month, days).is_some());
            assert!(Date::new(year, month, days + 1).is_none());
        }
    }
}

#[test]
fn texts_of_days() {
    assert_eq!(Date::new(2015, 9, 5).unwrap().text(), "2015-09-05");
    assert_eq!(Date::new(0, 1, 1).unwrap().text(), "0000-01-01");
    assert_eq!(Date::new(9999, 12, 31).unwrap().text(), "9999-12-31");
    assert_eq!(Date::new(-1, 1, 1).unwrap().text(), "-0001-01-01");
    assert_eq!(Date::new(10_000, 12, 31).unwrap().text(), "+10000-12-31");
    assert_eq!(Date::new(-12_345, 10, 20).unwrap().text(), "-12345-10-20");
}

#[test]
fn days_follow_one_another() {
    let days = [
        Date::new(-5, 12, 31).unwrap(),
        Date::new(2023, 1, 31).unwrap(),
        Date::new(2023, 2, 1).unwrap(),
        Date::new(2023, 2, 2).unwrap(),
        Date::new(2024, 1, 1).unwrap(),
    ];
    for (i, a) in days.iter().enumerate() {
        for (j, b) in days.iter().enumerate() {
            assert_eq!(a.before(b), i < j);
        }
    }
}

#[test]
fn texts_are_in_the_order_of_days() {
    let days = [(1, 2, 3), (999, 12, 31), (1000, 1, 1), (2023, 9, 30), (2023, 10, 1), (9999, 1, 2)];
    for a in days {
        for b in days {
            let x = Date::new(a.0, a.1, a.2).unwrap();
            let y = Date::new(b.0, b.1, b.2).unwrap();
            assert_eq!(x.text() < y.text(), x.before(&y));
        }
        assert!(Date::new(a.0, a.1, a.2).unwrap().text().as_str() < "Unknown");
    }
}

#[test]
fn the_calendar_is_that_of_chrono() {
    let years = (-262_150..-262_130).chain(-800..2_800).chain(262_130..262_150);
    for year in years.chain([i32::MIN, i32::MAX]) {
        for month in 0..14 {
            for day in [0, 1, 27, 28, 29, 30, 31, 32, u32::MAX] {
                assert_eq!(
                    Date::new(year, month, day).is_some(),
                    chrono::NaiveDate::from_ymd_opt(year, month, day).is_some(),
                );
            }
        }
    }
}

#[test]
fn days_read_differently() {
    let mut texts: Vec<String> = vec!["Unknown".to_string()];
    for year in (-10_010..-9_990).chain(-10..10).chain(9_990..10_010) {
        for month in 1..=12 {
            for day in [1, 10, 28] {
                texts.push(Date::new(year, month, day).unwrap().text());
            }
        }
    }
    let count = texts.len();
    texts.sort();
    texts.dedup();
    assert_eq!(texts.len(), count);
}

use import_utility::format::{format_eta, format_size, format_speed};

fn reference_size(bytes: u64) -> String {
    if bytes >= 1_048_576 * 1024 {
        format!("{:.2} GB", bytes as f64 / (1_048_576.0 * 1024.0))
    } else if bytes >= 1_048_576 {
        format!("{:.1} MB", bytes as f64 / 1_048_576.0)
    } else if bytes >= 1024 {
        format!("{:.1} KB", bytes as f64 / 1024.0)
    } else {
        format!("{} B", bytes)
    }
}

fn reference_speed(bytes_per_sec: f64) -> String {
    if bytes_per_sec >= 1_048_576.0 {
        format!("{:.1} MB/s", bytes_per_sec / 1_048_576.0)
    } else if bytes_per_sec >= 1024.0 {
        format!("{:.1} KB/s", bytes_per_sec / 1024.0)
    } else {
        format!("{:.0} B/s", bytes_per_sec)
    }
}

fn next(seed: &mut u64) -> u64 {
    *seed = seed.wrapping_mul(6364136223846793005).wrapping_add(1442695040888963407);
    let x = *seed;
    (x ^ (x >> 29)).wrapping_mul(0xbf58476d1ce4e5b9)
}

#[test]
fn sizes_in_their_units() {
    assert_eq!(format_size(0), "0 B");
    assert_eq!(format_size(1023), "1023 B");
    assert_eq!(format_size(1024), "1.0 KB");
    assert_eq!(format_size(1536), "1.5 KB");
    assert_eq!(format_size(1_048_575), "1024.0 KB");
    assert_eq!(format_size(1_048_576), "1.0 MB");
    assert_eq!(format_size(5_767_168), "5.5 MB");
    assert_eq!(format_size(1_073_741_823), "1024.0 MB");
    assert_eq!(format_size(1_073_741_824), "1.00 GB");
    assert_eq!(format_size(1_342_177_280), "1.25 GB");
    assert_eq!(format_size(u64::MAX), "17179869184.00 GB");
}

#[test]
fn size_ties_go_to_even() {
    assert_eq!(format_size(1024 + 256), "1.2 KB");
    assert_eq!(format_size(1024 + 768), "1.8 KB");
    assert_eq!(format_size(1_073_741_824 + 134_217_728), "1.12 GB");
    assert_eq!(format_size(1_073_741_824 + 402_653_184), "1.38 GB");
}

#[test]
fn sizes_are_those_of_floating_point() {
    for bytes in 0..20_000u64 {
        assert_eq!(format_size(bytes), reference_size(bytes));
    }
    let mut seed = 1;
    for shift in 0..64u32 {
        for _ in 0..200 {
            let bytes = next(&mut seed) >> shift;
            assert_eq!(format_size(bytes), reference_size(bytes));
        }
        let power = 1u64 << shift;
        for bytes in [power - 1, power, power + 1, power / 8 * 9, power / 8 * 11] {
            assert_eq!(format_size(bytes), reference_size(bytes));
        }
    }
    for bytes in (u64::MAX - 5_000)..=u64::MAX {
        assert_eq!(format_size(bytes), reference_size(bytes));
    }
}

#[test]
fn remaining_times() {
    assert_eq!(format_eta(None), "ETA: Calculating...");
    assert_eq!(format_eta(Some(0)), "ETA: 0s");
    assert_eq!(format_eta(Some(59)), "ETA: 59s");
    assert_eq!(format_eta(Some(60)), "ETA: 1m 0s");
    assert_eq!(format_eta(Some(125)), "ETA: 2m 5s");
    assert_eq!(format_eta(Some(u64::MAX)), "ETA: 307445734561825860m 15s");
}

#[test]
fn speeds_in_their_units() {
    assert_eq!(format_speed(0f64.to_bits()), "0 B/s");
    assert_eq!(format_speed(0.5f64.to_bits()), "0 B/s");
    assert_eq!(format_speed(1.5f64.to_bits()), "2 B/s");
    assert_eq!(format_speed(2.5f64.to_bits()), "2 B/s");
    assert_eq!(format_speed(1023.6f64.to_bits()), "1024 B/s");
    assert_eq!(format_speed(1024f64.to_bits()), "1.0 KB/s");
    assert_eq!(format_speed(1536f64.to_bits()), "1.5 KB/s");
    assert_eq!(format_speed(1_048_576f64.to_bits()), "1.0 MB/s");
    assert_eq!(format_speed(94_371_840f64.to_bits()), "90.0 MB/s");
    assert_eq!(format_speed(f64::NAN.to_bits()), "NaN B/s");
    assert_eq!(format_speed(f64::INFINITY.to_bits()), "inf MB/s");
    assert_eq!(format_speed(f64::NEG_INFINITY.to_bits()), "-inf B/s");
    assert_eq!(format_speed((-0f64).to_bits()), "-0 B/s");
    assert_eq!(format_speed((-3f64).to_bits()), "-3 B/s");
}

#[test]
fn speeds_are_those_of_floating_point() {
    for x in [
        0.0,
        -0.0,
        f64::MIN_POSITIVE,
        5e-324,
        f64::MAX,
        f64::MIN,
        1e30,
        -1e30,
        1e300,
        0.49999999999999994,
        1048575.9999999999,
        1023.9999999999999,
    ] {
        assert_eq!(format_speed(x.to_bits()), reference_speed(x));
    }
    let mut seed = 7;
    for _ in 0..4_000 {
        let x = f64::from_bits(next(&mut seed));
        assert_eq!(format_speed(x.to_bits()), reference_speed(x));
    }
    for shift in 0..64u32 {
        for _ in 0..100 {
            let x = (next(&mut seed) >> shift) as f64 / 64.0;
            assert_eq!(format_speed(x.to_bits()), reference_speed(x));
        }
    }
}

#[test]
fn greater_sizes_read_greater() {
    let mut sizes: Vec<u64> = vec![0, 1, 1023, 1024, 1025, 1_048_575, 1_048_576, 1_073_741_823];
    let mut seed = 5;
    for shift in 0..64u32 {
        for _ in 0..50 {
            sizes.push(next(&mut seed) >> shift);
        }
    }
    sizes.sort();
    let read = |bytes: u64| {
        let text = format_size(bytes);
        let (number, unit) = text.split_once(' ').unwrap();
        let unit = ["B", "KB", "MB", "GB"].iter().position(|u| *u == unit).unwrap();
        (unit, number.parse::<f64>().unwrap())
    };
    assert!(sizes.windows(2).all(|w| read(w[0]) <= read(w[1])));
}

#[test]
fn sizes_up_to_two_to_the_53_are_exact() {
    assert_eq!(format_size(1 << 53), "8388608.00 GB");
    assert_eq!(format_size((1 << 53) - 5_368_710), "8388607.99 GB");
}

#[test]
fn remaining_times_are_told_apart() {
    let mut texts: Vec<String> = (0..4_000).map(|s| format_eta(Some(s))).collect();
    texts.push(format_eta(None));
    texts.push(format_eta(Some(u64::MAX)));
    let count = texts.len();
    texts.sort();
    texts.dedup();
    assert_eq!(texts.len(), count);
}

#[test]
fn whole_speeds_read_as_sizes() {
    let mut seed = 9;
    let mut sizes: Vec<u64> = vec![0, 1, 1023, 1024, 1536, 1_048_575, 1_048_576, 1_073_741_823];
    for shift in 34..64u32 {
        for _ in 0..20 {
            sizes.push(next(&mut seed) >> shift);
        }
    }
    for bytes in sizes {
        assert_eq!(format_speed((bytes as f64).to_bits()), format_size(bytes) + "/s");
    }
}

use import_utility::float::{Binary64, Float};
use import_utility::progress::{pace, percent, Seconds, HUNDRED};
use std::time::Duration;

fn reference_percent(copied: u64, total: u64) -> f32 {
    if total > 0 {
        (copied as f32 / total as f32) * 100.0
    } else {
        0.0
    }
}

fn reference_pace(copied: u64, remaining: u64, elapsed: f64) -> (f64, Option<u64>) {
    let speed = if elapsed > 0.0 { copied as f64 / elapsed } else { 0.0 };
    let eta = if speed > 0.0 { Some((remaining as f64 / speed) as u64) } else { None };
    (speed, eta)
}

fn next(seed: &mut u64) -> u64 {
    *seed = seed.wrapping_mul(6364136223846793005).wrapping_add(1442695040888963407);
    let x = *seed;
    (x ^ (x >> 31)).wrapping_mul(0x94d049bb133111eb)
}

#[test]
fn percentages() {
    assert_eq!(percent(0, 0), 0);
    assert_eq!(percent(5, 0), 0);
    assert_eq!(percent(0, 5), 0);
    assert_eq!(f32::from_bits(percent(1, 4)), 25.0);
    assert_eq!(f32::from_bits(percent(3, 2)), 150.0);
    assert_eq!(percent(1, 3), reference_percent(1, 3).to_bits());
}

#[test]
fn the_whole_is_a_hundred_percent() {
    assert_eq!(HUNDRED, 100f32.to_bits());
    for n in [1, 2, 3, 1_000, 16_777_217, u64::MAX] {
        assert_eq!(percent(n, n), HUNDRED);
    }
}

#[test]
fn percentages_go_forward_up_to_a_hundred() {
    for total in [1, 7, 1_000, 16_777_217, 1 << 40, u64::MAX] {
        let mut seed = total;
        let mut parts: Vec<u64> = vec![0, 1, total - 1, total];
        for shift in 0..64u32 {
            parts.push((next(&mut seed) >> shift) % total);
        }
        parts.sort();
        let percents: Vec<u32> = parts.iter().map(|p| percent(*p, total)).collect();
        assert!(percents.windows(2).all(|w| w[0] <= w[1]));
        assert_eq!(percents[0], 0);
        assert_eq!(*percents.last().unwrap(), HUNDRED);
    }
}

#[test]
fn percentages_are_those_of_floating_point() {
    let mut seed = 3;
    for shift in 0..64u32 {
        for other in 0..64u32 {
            for _ in 0..4 {
                let copied = next(&mut seed) >> shift;
                let total = next(&mut seed) >> other;
                assert_eq!(percent(copied, total), reference_percent(copied, total).to_bits());
            }
        }
    }
}

#[test]
fn speed_and_remaining_time() {
    let two = Seconds::from_bits(2f64.to_bits()).unwrap();
    let (speed, eta) = pace(1_000, 3_000, two);
    assert_eq!(f64::from_bits(speed), 500.0);
    assert_eq!(eta, Some(6));
    let zero = Seconds::from_bits(0f64.to_bits()).unwrap();
    assert_eq!(pace(1_000, 3_000, zero), (0, None));
    assert_eq!(pace(0, 3_000, two), (0, None));
    let day = Seconds::from_bits(86_400f64.to_bits()).unwrap();
    assert_eq!(pace(1, u64::MAX, day).1, Some(u64::MAX));
}

#[test]
fn paces_are_those_of_floating_point() {
    let mut seed = 11;
    for shift in 0..64u32 {
        for other in 0..64u32 {
            for _ in 0..4 {
                let copied = next(&mut seed) >> shift;
                let remaining = next(&mut seed) >> other;
                let nanos = next(&mut seed) >> (next(&mut seed) % 64);
                let elapsed = Duration::from_nanos(nanos).as_secs_f64();
                let seconds = Seconds::from_bits(elapsed.to_bits()).unwrap();
                let (speed, eta) = pace(copied, remaining, seconds);
                let (want_speed, want_eta) = reference_pace(copied, remaining, elapsed);
                assert_eq!(speed, want_speed.to_bits());
                assert_eq!(eta, want_eta);
            }
        }
    }
}

#[test]
fn times_are_zero_or_of_a_clock() {
    for nanos in [0, 1, 999, 1_000_000_000, u64::MAX] {
        let elapsed = Duration::from_nanos(nanos).as_secs_f64();
        assert!(Seconds::from_bits(elapsed.to_bits()).is_some());
    }
    assert!(Seconds::from_bits(Duration::MAX.as_secs_f64().to_bits()).is_some());
    for x in [-1.0, f64::NAN, f64::INFINITY, 1e-300, 1e300] {
        assert!(Seconds::from_bits(x.to_bits()).is_none());
    }
}

#[test]
fn bits_of_numbers() {
    for x in [0.0, 1.0, 0.1, 123456.789, 1e-300, f64::MAX] {
        match Binary64::from_bits(f64::to_bits(x)) {
            Binary64::Finite { negative, value } => {
                assert!(!negative);
                assert_eq!(value.double_bits(), x.to_bits());
            }
            _ => panic!("not finite"),
        }
    }
    for n in [0, 1, 7, 16_777_217, u64::MAX] {
        assert_eq!(Float::single(n).single_bits(), (n as f32).to_bits());
        assert_eq!(Float::double(n).double_bits(), (n as f64).to_bits());
        assert_eq!(Float::double(n).to_u64(), n as f64 as u64);
    }
    assert_eq!(Binary64::from_bits(f64::NAN.to_bits()), Binary64::NotANumber);
    assert_eq!(
        Binary64::from_bits(f64::NEG_INFINITY.to_bits()),
        Binary64::Infinite { negative: true }
    );
}

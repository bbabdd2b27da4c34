//! From samples to decibels.
use sense_hat_meter::binary32::Binary32;
use sense_hat_meter::color::db_to_color;
use sense_hat_meter::level::{
    calculate_decibel, log_argument, normalize_signed, normalize_unsigned, rms_of_floats,
    rms_of_signed, rms_of_unsigned, DECIBELS_PER_DECADE, LEAST_LOG_ARGUMENT, MAX_DB, MIN_DB,
    SAMPLE_SCALE,
};

fn lib(x: f32) -> Binary32 {
    Binary32::from_bits(x.to_bits())
}

fn float(x: Binary32) -> f32 {
    f32::from_bits(x.to_bits())
}

fn decibels(rms: f32) -> f32 {
    float(calculate_decibel(log_argument(lib(rms)).map(|x| lib(float(x).log10()))))
}

fn machine_decibels(rms: f32) -> f32 {
    if rms <= 0.0 {
        return -80.0;
    }
    let db = 20.0 * (rms.max(1e-10)).log10();
    db.max(-80.0).min(0.0)
}

/// A fixed pseudo-random sequence.
fn sequence(n: usize, seed: u64) -> Vec<u32> {
    let mut state = seed;
    let mut all = Vec::new();
    for _ in 0..n {
        state = state.wrapping_mul(6364136223846793005).wrapping_add(1442695040888963407);
        all.push((state >> 32) as u32);
    }
    all
}

#[test]
fn constants_are_the_documented_numbers() {
    assert_eq!(MIN_DB, (-80.0f32).to_bits());
    assert_eq!(MAX_DB, 0.0f32.to_bits());
    assert_eq!(DECIBELS_PER_DECADE, 20.0f32.to_bits());
    assert_eq!(LEAST_LOG_ARGUMENT, 1e-10f32.to_bits());
    assert_eq!(SAMPLE_SCALE, 32768.0f32.to_bits());
}

#[test]
fn decibels_have_known_values() {
    assert_eq!(decibels(0.0), -80.0);
    assert_eq!(decibels(-0.0), -80.0);
    assert_eq!(decibels(-1.0), -80.0);
    assert_eq!(decibels(f32::NEG_INFINITY), -80.0);
    assert_eq!(decibels(1.0), 0.0);
    assert_eq!(decibels(0.1), -20.0);
    assert_eq!(decibels(100.0), 0.0);
    assert_eq!(decibels(f32::INFINITY), 0.0);
    assert_eq!(decibels(1e-9), -80.0);
    assert_eq!(decibels(f32::NAN), -80.0);
}

#[test]
fn log_argument_is_none_for_silence_only() {
    assert!(log_argument(lib(0.0)).is_none());
    assert!(log_argument(lib(-0.5)).is_none());
    assert_eq!(float(log_argument(lib(1e-30)).unwrap()), 1e-10);
    assert_eq!(float(log_argument(lib(f32::NAN)).unwrap()), 1e-10);
    assert_eq!(float(log_argument(lib(0.25)).unwrap()), 0.25);
}

#[test]
fn decibels_agree_with_machine_arithmetic() {
    for bits in sequence(100_000, 5) {
        let rms = f32::from_bits(bits);
        assert_eq!(decibels(rms).to_bits(), machine_decibels(rms).to_bits(), "of {}", rms);
    }
    let mut rms = 1e-12f32;
    while rms < 10.0 {
        assert_eq!(decibels(rms).to_bits(), machine_decibels(rms).to_bits(), "of {}", rms);
        rms *= 1.01;
    }
}

#[test]
fn level_stays_in_range_whatever_the_logarithm() {
    for bits in sequence(100_000, 9) {
        let level = float(calculate_decibel(Some(Binary32::from_bits(bits))));
        assert!(level >= -80.0 && level <= 0.0);
    }
    assert_eq!(float(calculate_decibel(Some(lib(f32::NAN)))), -80.0);
}

#[test]
fn level_follows_the_logarithm() {
    let mut last = -80.0f32;
    let mut log = -10.0f32;
    while log < 2.0 {
        let level = float(calculate_decibel(Some(lib(log))));
        assert!(level >= last);
        last = level;
        log += 0.001;
    }
    assert_eq!(last, 0.0);
}

#[test]
fn samples_are_normalized_exactly() {
    for n in 0..=65535u32 {
        let s = n as u16 as i16;
        assert_eq!(float(normalize_signed(s)), s as f32 / 32768.0);
        let u = n as u16;
        assert_eq!(float(normalize_unsigned(u)), (u as f32 - 32768.0) / 32768.0);
    }
    assert_eq!(float(normalize_signed(i16::MIN)), -1.0);
    assert_eq!(float(normalize_unsigned(0)), -1.0);
    assert_eq!(float(normalize_unsigned(32768)), 0.0);
}

#[test]
fn empty_blocks_have_no_level() {
    assert!(rms_of_floats(&[]).is_none());
    assert!(rms_of_signed(&[]).is_none());
    assert!(rms_of_unsigned(&[]).is_none());
}

#[test]
fn rms_has_known_values() {
    assert_eq!(float(rms_of_floats(&[lib(0.5), lib(-0.5)]).unwrap()), 0.5);
    assert_eq!(float(rms_of_floats(&[lib(3.0), lib(4.0)]).unwrap()), 12.5f32.sqrt());
    assert_eq!(float(rms_of_signed(&[16384, -16384, 16384]).unwrap()), 0.5);
    assert_eq!(float(rms_of_unsigned(&[49152, 16384]).unwrap()), 0.5);
    assert_eq!(float(rms_of_signed(&[0, 0, 0]).unwrap()), 0.0);
    assert!(float(rms_of_floats(&[lib(f32::NAN), lib(0.0)]).unwrap()).is_nan());
    assert_eq!(float(rms_of_floats(&[lib(f32::INFINITY), lib(0.0)]).unwrap()), f32::INFINITY);
}

#[test]
fn rms_agrees_with_machine_arithmetic() {
    for block in 1..60usize {
        let bits = sequence(block * 7, block as u64);
        let floats: Vec<f32> = bits.iter().map(|b| (*b as i32) as f32 / 2147483648.0).collect();
        let sum: f32 = floats.iter().map(|&s| s * s).sum();
        let rms = (sum / floats.len() as f32).sqrt();
        let ours: Vec<Binary32> = floats.iter().map(|&s| lib(s)).collect();
        assert_eq!(rms_of_floats(&ours).unwrap().to_bits(), rms.to_bits());

        let signed: Vec<i16> = bits.iter().map(|b| *b as i16).collect();
        let sum: f32 = signed
            .iter()
            .map(|&s| {
                let n = s as f32 / 32768.0;
                n * n
            })
            .sum();
        let rms = (sum / signed.len() as f32).sqrt();
        assert_eq!(rms_of_signed(&signed).unwrap().to_bits(), rms.to_bits());

        let unsigned: Vec<u16> = bits.iter().map(|b| *b as u16).collect();
        let sum: f32 = unsigned
            .iter()
            .map(|&s| {
                let n = (s as f32 - 32768.0) / 32768.0;
                n * n
            })
            .sum();
        let rms = (sum / unsigned.len() as f32).sqrt();
        assert_eq!(rms_of_unsigned(&unsigned).unwrap().to_bits(), rms.to_bits());
    }
}

#[test]
fn full_scale_is_never_exceeded() {
    let loudest = vec![i16::MIN; 1000];
    assert_eq!(float(rms_of_signed(&loudest).unwrap()), 1.0);
    let lowest = vec![0u16; 1000];
    assert_eq!(float(rms_of_unsigned(&lowest).unwrap()), 1.0);
}

#[test]
fn louder_samples_have_no_smaller_rms() {
    let quiet: Vec<i16> = vec![10, -20, 30, -40];
    let loud: Vec<i16> = vec![-10, 21, 30, 32767];
    let a = float(rms_of_signed(&quiet).unwrap());
    let b = float(rms_of_signed(&loud).unwrap());
    assert!(a <= b);
}

#[test]
fn silence_is_black() {
    let rms = rms_of_floats(&[lib(0.0), lib(-0.0), lib(0.0)]).unwrap();
    let log = log_argument(rms);
    assert!(log.is_none());
    assert_eq!(db_to_color(calculate_decibel(log)), (0, 0, 0));
}

#[test]
fn the_ends_of_the_scale() {
    for log in [0.0f32, -0.0, 1e-30, 0.5, 38.5, f32::INFINITY] {
        let level = calculate_decibel(Some(lib(log)));
        assert_eq!(float(level), 0.0);
        assert_eq!(db_to_color(level), (255, 0, 0));
    }
    for rms in [1.0f32, 1.5, 1e30] {
        assert_eq!(float(log_argument(lib(rms)).unwrap()), rms);
        assert_eq!(decibels(rms), 0.0);
    }
    for rms in [0.0f32, -0.0, -2.0] {
        let level = calculate_decibel(log_argument(lib(rms)));
        assert_eq!(db_to_color(level), (0, 0, 0));
    }
}

#[test]
fn silence_has_the_lowest_level() {
    let silence = float(calculate_decibel(None));
    for bits in sequence(10_000, 21) {
        assert!(silence <= float(calculate_decibel(Some(Binary32::from_bits(bits)))));
    }
}

#[test]
fn ten_times_the_amplitude_is_twenty_decibels_more() {
    assert_eq!(decibels(0.1), -20.0);
    assert_eq!(decibels(0.01), -40.0);
    let mut rms = 1e-4f32;
    while 10.0 * rms <= 1.0 {
        assert!((decibels(10.0 * rms) - (decibels(rms) + 20.0)).abs() <= 1e-3);
        rms *= 1.003;
    }
}

#[test]
fn louder_blocks_have_no_lower_a_level() {
    let mut last = decibels(0.0);
    let mut rms = 1e-12f32;
    while rms < 10.0 {
        let next = decibels(rms);
        assert!(last <= next + 1e-4);
        last = next;
        rms *= 1.001;
    }
}

//! Colours of levels and the way from one colour to the next.
use sense_hat_meter::binary32::Binary32;
use sense_hat_meter::color::{
    db_to_color, smooth_color, COLOR_SMOOTHING, FLASH_THRESHOLD, FULL, GREEN_FULL, ONE, RED_START,
    YELLOW_MAX, YELLOW_START,
};

fn color(db: f32) -> (u8, u8, u8) {
    db_to_color(Binary32::from_bits(db.to_bits()))
}

/// The colour of a level in machine arithmetic.
fn machine_color(db: f32) -> (u8, u8, u8) {
    if db < -80.0 {
        return (0, 0, 0);
    }
    if db < -65.0 {
        let ratio = (db - -80.0f32) / (-65.0f32 - -80.0f32);
        return (0, (ratio * 255.0).min(255.0) as u8, 0);
    }
    if db < -55.0 {
        return (0, 255, 0);
    }
    if db < -35.0 {
        let ratio = (db - -55.0f32) / (-35.0f32 - -55.0f32);
        return ((ratio * 255.0).min(255.0) as u8, 255, 0);
    }
    if db < -20.0 {
        let ratio = (db - -35.0f32) / (-20.0f32 - -35.0f32);
        return (255, ((1.0 - ratio) * 255.0).max(0.0) as u8, 0);
    }
    (255, 0, 0)
}

#[test]
fn thresholds_are_the_documented_decibels() {
    assert_eq!(GREEN_FULL, (-65.0f32).to_bits());
    assert_eq!(YELLOW_START, (-55.0f32).to_bits());
    assert_eq!(YELLOW_MAX, (-35.0f32).to_bits());
    assert_eq!(RED_START, (-35.0f32).to_bits());
    assert_eq!(FLASH_THRESHOLD, (-20.0f32).to_bits());
    assert_eq!(COLOR_SMOOTHING, 0.85f32.to_bits());
    assert_eq!(ONE, 1.0f32.to_bits());
    assert_eq!(FULL, 255.0f32.to_bits());
}

#[test]
fn bands_have_their_colors() {
    assert_eq!(color(f32::NEG_INFINITY), (0, 0, 0));
    assert_eq!(color(-100.0), (0, 0, 0));
    assert_eq!(color(-80.0), (0, 0, 0));
    assert_eq!(color(-72.5), (0, 127, 0));
    assert_eq!(color(-65.0), (0, 255, 0));
    assert_eq!(color(-60.0), (0, 255, 0));
    assert_eq!(color(-55.0), (0, 255, 0));
    assert_eq!(color(-45.0), (127, 255, 0));
    assert_eq!(color(-35.0), (255, 255, 0));
    assert_eq!(color(-27.5), (255, 127, 0));
    assert_eq!(color(-20.0), (255, 0, 0));
    assert_eq!(color(0.0), (255, 0, 0));
    assert_eq!(color(f32::INFINITY), (255, 0, 0));
    assert_eq!(color(f32::NAN), (255, 0, 0));
}

#[test]
fn colors_agree_with_machine_arithmetic() {
    // Every 97th number from -90 to -10, and those around the thresholds.
    let mut bits = (-10.0f32).to_bits();
    while bits <= (-90.0f32).to_bits() {
        let db = f32::from_bits(bits);
        assert_eq!(color(db), machine_color(db), "at {}", db);
        bits += 97;
    }
    for threshold in [-80.0f32, -65.0, -55.0, -35.0, -20.0] {
        for bits in threshold.to_bits() - 2000..threshold.to_bits() + 2000 {
            let db = f32::from_bits(bits);
            assert_eq!(color(db), machine_color(db), "at {}", db);
        }
    }
}

#[test]
fn louder_is_redder() {
    let mut last = color(-90.0);
    let mut db = -90.0f32;
    while db < 0.0 {
        let next = color(db);
        assert!(next.0 >= last.0);
        assert_eq!(next.2, 0);
        if db < -35.0 {
            assert!(next.1 >= last.1);
        }
        last = next;
        db += 0.01;
    }
}

#[test]
fn smoothing_agrees_with_machine_arithmetic() {
    for c in 0..=255u8 {
        for t in 0..=255u8 {
            let machine = ((c as f32 * 0.85f32) + (t as f32 * (1.0 - 0.85f32))) as u8;
            let (x, y, z) = smooth_color((c, 0, t), (t, 0, c));
            assert_eq!(x, machine, "from {} to {}", c, t);
            assert_eq!(y, 0);
            let back = ((t as f32 * 0.85f32) + (c as f32 * (1.0 - 0.85f32))) as u8;
            assert_eq!(z, back);
        }
    }
}

#[test]
fn smoothing_steps_have_known_values() {
    assert_eq!(smooth_color((0, 0, 0), (255, 255, 255)), (38, 38, 38));
    assert_eq!(smooth_color((255, 100, 50), (0, 0, 0)), (216, 85, 42));
    assert_eq!(smooth_color((0, 20, 255), (20, 0, 255)), (2, 17, 255));
}

#[test]
fn smoothing_settles() {
    let mut down = (255, 200, 7);
    let mut up = (0, 0, 250);
    for _ in 0..255 {
        down = smooth_color(down, (0, 10, 7));
        up = smooth_color(up, (255, 100, 255));
    }
    assert_eq!(down, (0, 10, 7));
    assert_eq!(up, (249, 94, 250));
}

#[test]
fn green_rises_up_to_full_yellow() {
    for bits in (-35.0f32).to_bits()..(-35.0f32).to_bits() + 1000 {
        assert!(color(f32::from_bits(bits)).1 <= color(-35.0).1);
    }
}

#[test]
fn colors_have_no_jump() {
    let close = |x: u8, y: u8| (x as i32 - y as i32).abs() <= 1;
    let mut a = -85.0f32;
    while a < -10.0 {
        for step in [0.0f32, 0.01, 0.03, 0.05] {
            let (x, y) = (color(a), color(a + step));
            assert!(close(x.0, y.0) && close(x.1, y.1) && close(x.2, y.2), "at {}", a);
        }
        a += 0.0007;
    }
}

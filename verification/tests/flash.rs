//! The flashing sequence.
use sense_hat_meter::driver::{BusStep, SenseHatLED};
use sense_hat_meter::flash::{
    sparkle_steps, Flashing, Sparkle, FLASH_DURATION, SPARKLE_PAUSE_MICROS,
};

const LED: SenseHatLED = SenseHatLED { address: 0x46 };

#[test]
fn draws_lie_on_the_matrix_and_vary() {
    let mut flashing = Flashing::begin(0);
    let mut columns = vec![false; 8];
    let mut rows = vec![false; 8];
    let mut reds = vec![false; 256];
    for _ in 0..20_000 {
        let s = flashing.draw();
        assert!(s.x < 8 && s.y < 8);
        columns[s.x] = true;
        rows[s.y] = true;
        reds[s.r as usize] = true;
    }
    assert!(columns.iter().all(|c| *c));
    assert!(rows.iter().all(|r| *r));
    assert!(reds.iter().filter(|r| **r).count() > 200);
}

#[test]
fn numbers_drawn_become_a_sparkle() {
    assert_eq!(
        Sparkle::from_draws(2, 3, 30, 60, 90),
        Sparkle { x: 2, y: 3, r: 30, g: 60, b: 90 }
    );
    assert_eq!(
        Sparkle::from_draws(7, 0, 255, 0, 128),
        Sparkle { x: 7, y: 0, r: 255, g: 0, b: 128 }
    );
}

#[test]
fn a_sparkle_lights_its_pixel() {
    let sparkle = Sparkle { x: 2, y: 3, r: 30, g: 60, b: 90 };
    let mut expected = LED.set_pixel(2, 3, 30, 60, 90);
    expected.push(BusStep::Pause { micros: 1_000 });
    assert_eq!(sparkle_steps(&LED, sparkle), expected);
}

#[test]
fn the_sequence_lasts_five_seconds() {
    let mut flashing = Flashing::begin(1_000);
    assert!(flashing.flashing_sequence(&LED, true, 1_000).is_some());
    assert!(flashing.flashing_sequence(&LED, true, 500).is_some());
    assert!(flashing.flashing_sequence(&LED, true, 1_000 + FLASH_DURATION - 1).is_some());
    assert!(flashing.flashing_sequence(&LED, true, 1_000 + FLASH_DURATION).is_none());
    assert!(flashing.flashing_sequence(&LED, true, u64::MAX).is_none());
    assert_eq!(FLASH_DURATION, 5_000_000_000);
    assert_eq!(SPARKLE_PAUSE_MICROS, 1_000);
}

#[test]
fn the_sequence_stops_with_the_program() {
    let mut flashing = Flashing::begin(0);
    assert!(flashing.flashing_sequence(&LED, false, 0).is_none());
}

#[test]
fn the_sequence_lights_pixels_of_the_matrix() {
    let mut flashing = Flashing::begin(0);
    for _ in 0..1000 {
        let steps = flashing.flashing_sequence(&LED, true, 1).unwrap();
        assert_eq!(steps.len(), 7);
        assert_eq!(steps[6], BusStep::Pause { micros: SPARKLE_PAUSE_MICROS });
        if let BusStep::Write { reg, .. } = steps[4] {
            assert!(reg >= 0x1D && reg < 0x1D + 64);
        } else {
            panic!("the fifth step is a write");
        }
    }
}

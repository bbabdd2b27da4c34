//! The register writes of every operation, and how they are carried out.
use sense_hat_meter::driver::{BusStep, SenseHatLED, Stage};
use sense_hat_meter::transfer::{BusAction, Transfer};

const LED: SenseHatLED = SenseHatLED { address: 0x46 };

fn write(reg: u8, value: u8) -> Vec<BusStep> {
    staged(reg, value, Stage::Drawing)
}

fn staged(reg: u8, value: u8, stage: Stage) -> Vec<BusStep> {
    vec![BusStep::Write { reg, value, stage }, BusStep::Pause { micros: 100 }]
}

fn frame(frame: u8, enable: u8, pwm: u8, stage: Stage) -> Vec<BusStep> {
    let mut all = staged(0xFD, frame, stage);
    for i in 0..18u8 {
        all.extend(staged(0x0B + i, enable, stage));
    }
    for i in 18..162u8 {
        all.extend(staged(0x0B + i, pwm, stage));
    }
    all
}

/// The registers of the frames after some steps, by frame and register.
fn registers(steps: &[BusStep]) -> Vec<Vec<Option<u8>>> {
    let mut all = vec![vec![None; 256]; 256];
    let mut selected = 0usize;
    for step in steps {
        if let BusStep::Write { reg, value, .. } = step {
            if *reg == 0xFD {
                selected = *value as usize;
            } else {
                all[selected][*reg as usize] = Some(*value);
            }
        }
    }
    all
}

#[test]
fn init_brings_up_the_chip() {
    let mut expected = staged(0x0A, 0x01, Stage::Shutdown);
    expected.push(BusStep::Pause { micros: 10_000 });
    expected.extend(staged(0x05, 0x00, Stage::DisplayOption));
    expected.extend(staged(0x01, 0x00, Stage::PictureDisplay));
    expected.extend(frame(0, 0, 0, Stage::ClearFrame));
    assert_eq!(LED.init(), expected);
}

#[test]
fn register_writes_are_followed_by_a_pause() {
    assert_eq!(LED.write_register(0x12, 0x34), write(0x12, 0x34));
    assert_eq!(LED.select_frame(3), write(0xFD, 3));
}

#[test]
fn clearing_writes_the_whole_frame() {
    assert_eq!(LED.clear_frame(5), frame(5, 0, 0, Stage::Drawing));
    assert_eq!(LED.clear(), frame(0, 0, 0, Stage::Drawing));
    assert_eq!(LED.clear().len(), 326);
}

#[test]
fn filling_uses_the_mean_of_the_channels() {
    assert_eq!(LED.fill_all(255, 255, 255), frame(0, 0xFF, 255, Stage::Drawing));
    assert_eq!(LED.fill_all(255, 0, 0), frame(0, 0xFF, 85, Stage::Drawing));
    assert_eq!(LED.fill_all(1, 1, 0), frame(0, 0xFF, 0, Stage::Drawing));
    assert_eq!(LED.fill_all(10, 20, 40), frame(0, 0xFF, 23, Stage::Drawing));
}

#[test]
fn pixels_have_their_registers() {
    let mut expected = write(0xFD, 0);
    expected.extend(write(0x0B, 0xFF));
    expected.extend(write(0x0B + 18, 100));
    assert_eq!(LED.set_pixel(0, 0, 100, 100, 100), expected);

    let mut expected = write(0xFD, 0);
    expected.extend(write(0x0B + 7, 0xFF));
    expected.extend(write(0x0B + 18 + 63, 2));
    assert_eq!(LED.set_pixel(7, 7, 1, 2, 3), expected);

    let mut expected = write(0xFD, 0);
    expected.extend(write(0x0B + 2, 0xFF));
    expected.extend(write(0x0B + 18 + 21, 0));
    assert_eq!(LED.set_pixel(5, 2, 0, 1, 1), expected);
}

#[test]
fn places_beyond_the_matrix_wrap_at_256() {
    let mut expected = write(0xFD, 0);
    expected.extend(write(0x0B, 0xFF));
    expected.extend(write(0x0B + 18 + 1, 9));
    assert_eq!(LED.set_pixel(1, 32, 9, 9, 9), expected);

    let mut expected = write(0xFD, 0);
    expected.extend(write(0x0B + 28, 0xFF));
    expected.extend(write(255, 9));
    assert_eq!(LED.set_pixel(2, 28, 9, 9, 9), expected);
}

#[test]
fn pixels_do_not_share_brightness_registers() {
    let mut seen = vec![false; 256];
    for y in 0..8 {
        for x in 0..8 {
            let steps = LED.set_pixel(x, y, 1, 1, 1);
            if let BusStep::Write { reg, .. } = steps[4] {
                assert!(!seen[reg as usize]);
                seen[reg as usize] = true;
            } else {
                panic!("the fifth step is a write");
            }
        }
    }
}

#[test]
fn clearing_undoes_filling_and_pixels() {
    let mut steps = LED.fill_all(9, 9, 9);
    steps.extend(LED.set_pixel(3, 4, 200, 200, 200));
    steps.extend(LED.clear());
    assert_eq!(registers(&steps), registers(&LED.clear()));
}

#[test]
fn the_last_fill_wins() {
    let mut steps = LED.fill_all(9, 9, 9);
    steps.extend(LED.fill_all(60, 60, 60));
    assert_eq!(registers(&steps), registers(&LED.fill_all(60, 60, 60)));
}

#[test]
fn a_pixel_changes_two_registers() {
    let base = registers(&LED.fill_all(9, 9, 9));
    let mut steps = LED.fill_all(9, 9, 9);
    steps.extend(LED.set_pixel(3, 4, 200, 200, 200));
    let drawn = registers(&steps);
    for f in 0..256 {
        for r in 0..256 {
            if f == 0 && r == 0x0B + 18 + 35 {
                assert_eq!(drawn[f][r], Some(200));
            } else {
                assert_eq!(drawn[f][r], base[f][r]);
            }
        }
    }
}

/// Runs a transfer, refusing the write with the given number.
fn run(steps: Vec<BusStep>, refuse: Option<usize>) -> (Vec<(u8, u8)>, u64, Result<(), String>) {
    let mut transfer = Transfer::new(steps);
    let mut written = Vec::new();
    let mut waited = 0;
    let mut refusal = None;
    loop {
        match transfer.next(refusal.take()) {
            BusAction::Write { reg, value } => {
                if refuse == Some(written.len()) {
                    refusal = Some("bus error".to_string());
                }
                written.push((reg, value));
            }
            BusAction::Pause { micros } => waited += micros,
            BusAction::Done => return (written, waited, Ok(())),
            BusAction::Failed { failure } => return (written, waited, Err(failure.message())),
        }
    }
}

#[test]
fn a_transfer_without_refusal_writes_everything() {
    let (written, waited, result) = run(LED.fill_all(30, 30, 30), None);
    assert_eq!(result, Ok(()));
    assert_eq!(written.len(), 163);
    assert_eq!(written[0], (0xFD, 0));
    assert_eq!(written[1], (0x0B, 0xFF));
    assert_eq!(written[162], (0xAC, 30));
    assert_eq!(waited, 16_300);
    let (_, waited, _) = run(LED.init(), None);
    assert_eq!(waited, 26_600);
}

#[test]
fn a_refused_write_ends_the_transfer() {
    let (written, _, result) = run(LED.fill_all(30, 30, 30), Some(4));
    assert_eq!(written.len(), 5);
    assert_eq!(
        result,
        Err("I²C write failed (reg: 0x0E, val: 0xFF): bus error".to_string())
    );
    let (written, _, result) = run(LED.set_pixel(0, 0, 90, 90, 90), Some(2));
    assert_eq!(written.len(), 3);
    assert_eq!(
        result,
        Err("I²C write failed (reg: 0x1D, val: 0x5A): bus error".to_string())
    );
}

#[test]
fn a_failed_init_names_its_stage() {
    assert_eq!(
        run(LED.init(), Some(0)).2,
        Err("Failed to write shutdown register: I²C write failed (reg: 0x0A, val: 0x01): bus error"
            .to_string())
    );
    assert_eq!(
        run(LED.init(), Some(1)).2,
        Err("Failed to write display option register: I²C write failed (reg: 0x05, val: 0x00): bus error"
            .to_string())
    );
    assert_eq!(
        run(LED.init(), Some(2)).2,
        Err("Failed to write picture display register: I²C write failed (reg: 0x01, val: 0x00): bus error"
            .to_string())
    );
    assert_eq!(
        run(LED.init(), Some(3)).2,
        Err("Failed to clear frame: I²C write failed (reg: 0xFD, val: 0x00): bus error".to_string())
    );
}

#[test]
fn a_finished_transfer_stays_finished() {
    let mut transfer = Transfer::new(Vec::new());
    assert!(matches!(transfer.next(None), BusAction::Done));
    assert!(matches!(transfer.next(Some("late".to_string())), BusAction::Done));
    let mut transfer = Transfer::new(LED.write_register(1, 2));
    assert!(matches!(transfer.next(None), BusAction::Write { reg: 1, value: 2 }));
    assert!(matches!(transfer.next(None), BusAction::Pause { micros: 100 }));
    // A pause cannot be refused.
    assert!(matches!(transfer.next(Some("late".to_string())), BusAction::Done));
}

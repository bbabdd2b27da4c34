//! The rounds of the display loop.
use sense_hat_meter::binary32::Binary32;
use sense_hat_meter::visualizer::{Command, Signal, Visualizer};

const SECOND: u64 = 1_000_000_000;

fn level(db: f32) -> Signal {
    Signal::Level { db: Binary32::from_bits(db.to_bits()) }
}

fn clock(now: u64) -> Signal {
    Signal::Clock { now }
}

/// The first steps of a round at a level, up to the reading of the clock.
fn begin(v: &mut Visualizer, db: f32) {
    assert!(matches!(v.step(Signal::Running { running: true }), Command::ReadLevel));
    assert!(matches!(v.step(level(db)), Command::ReadClock));
}

fn rest(v: &mut Visualizer) {
    assert!(matches!(v.step(Signal::Ready), Command::Pause { micros: 50_000 }));
    assert!(matches!(v.step(Signal::Ready), Command::PollRunning));
}

#[test]
fn a_quiet_round_moves_the_color() {
    let mut v = Visualizer::new(0, 0);
    begin(&mut v, -60.0);
    match v.step(clock(10)) {
        Command::Show { color } => assert_eq!(color, (0, 38, 0)),
        other => panic!("shows a colour, not {:?}", other),
    }
    rest(&mut v);
    begin(&mut v, -60.0);
    match v.step(clock(20)) {
        Command::Show { color } => assert_eq!(color, (0, 70, 0)),
        other => panic!("shows a colour, not {:?}", other),
    }
    assert_eq!(v.current_color, (0, 70, 0));
}

#[test]
fn the_level_is_reported_once_a_second() {
    let mut v = Visualizer::new(0, 0);
    begin(&mut v, -60.0);
    assert!(matches!(v.step(clock(SECOND - 1)), Command::Show { .. }));
    rest(&mut v);
    begin(&mut v, -50.0);
    match v.step(clock(SECOND)) {
        Command::Report { db } => assert_eq!(db.to_bits(), (-50.0f32).to_bits()),
        other => panic!("reports, not {:?}", other),
    }
    assert!(matches!(v.step(Signal::Ready), Command::ReadClock));
    assert!(matches!(v.step(clock(SECOND + 500)), Command::Show { .. }));
    assert_eq!(v.last_report_time, SECOND + 500);
    rest(&mut v);
    begin(&mut v, -50.0);
    assert!(matches!(v.step(clock(2 * SECOND + 499)), Command::Show { .. }));
    rest(&mut v);
    begin(&mut v, -50.0);
    assert!(matches!(v.step(clock(2 * SECOND + 500)), Command::Report { .. }));
}

#[test]
fn a_loud_level_flashes_after_the_cooldown() {
    let mut v = Visualizer::new(0, 0);
    begin(&mut v, -20.0);
    assert!(matches!(v.step(clock(5)), Command::ReadClock));
    // The cooldown counts from the start.
    assert!(matches!(v.step(clock(SECOND - 1)), Command::Show { .. }));
    rest(&mut v);
    begin(&mut v, -20.0);
    assert!(matches!(v.step(clock(6)), Command::ReadClock));
    assert!(matches!(v.step(clock(SECOND)), Command::Flash { .. }));
    assert!(matches!(v.step(Signal::Ready), Command::ReadClock));
    assert!(matches!(v.step(clock(6 * SECOND)), Command::Pause { micros: 50_000 }));
    assert_eq!(v.current_color, (255, 0, 0));
    assert_eq!(v.last_flash_time, 6 * SECOND);
    assert!(matches!(v.step(Signal::Ready), Command::PollRunning));
    begin(&mut v, 0.0);
    assert!(matches!(v.step(clock(7)), Command::ReadClock));
    assert!(matches!(v.step(clock(7 * SECOND - 1)), Command::Show { color: (255, 0, 0) }));
}

#[test]
fn levels_below_the_threshold_do_not_flash() {
    let mut v = Visualizer::new(0, 0);
    begin(&mut v, f32::from_bits((-20.0f32).to_bits() + 1));
    assert!(matches!(v.step(clock(5)), Command::Show { .. }));
    rest(&mut v);
    begin(&mut v, f32::NAN);
    assert!(matches!(v.step(clock(5)), Command::Show { .. }));
}

#[test]
fn a_report_can_come_before_a_flash() {
    let mut v = Visualizer::new(0, 0);
    begin(&mut v, -10.0);
    assert!(matches!(v.step(clock(2 * SECOND)), Command::Report { .. }));
    assert!(matches!(v.step(Signal::Ready), Command::ReadClock));
    assert!(matches!(v.step(clock(2 * SECOND)), Command::ReadClock));
    assert!(matches!(v.step(clock(2 * SECOND)), Command::Flash { .. }));
}

#[test]
fn stopping_darkens_the_display() {
    let mut v = Visualizer::new(0, 0);
    assert!(matches!(v.step(Signal::Running { running: false }), Command::Clear));
    assert!(matches!(v.step(Signal::Ready), Command::Quit));
    assert!(matches!(v.step(Signal::Ready), Command::Quit));
}

#[test]
fn every_command_tells_which_signal_answers_it() {
    let mut v = Visualizer::new(0, 0);
    let mut command = Command::PollRunning;
    let mut now = 0;
    let mut flashes = 0;
    for i in 0..2_000u32 {
        now += SECOND / 10;
        command = v.step(match command {
            Command::PollRunning => Signal::Running { running: true },
            Command::ReadLevel => level(if i % 2 == 0 { -60.0 } else { -10.0 }),
            Command::ReadClock => clock(now),
            _ => Signal::Ready,
        });
        assert!(!matches!(command, Command::Quit));
        if matches!(command, Command::Flash { .. }) {
            flashes += 1;
        }
    }
    assert!(flashes > 0);
}

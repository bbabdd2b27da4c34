//! The loop that shows the level on the display.
//!
//! A [`Visualizer`] says what to do next, and a [`Signal`] tells it how that
//! came out. Round after round it asks whether to go on, reads the level,
//! reports it once a second, and either flashes or shows the next colour. When
//! it is told to stop, it darkens the display.
use crate::binary32::{less, Binary32};
use crate::clock::{elapsed, time_between};
use crate::color::{
    blend_color, color_of, db_to_color, lemma_landmark_sizes, lemma_level_sizes, smooth_color,
    FLASH_THRESHOLD,
};
use crate::smoothing::{law_every_channel_is_smoothed, law_step_approaches_target};
use vstd::arithmetic::power2::pow2;
use vstd::prelude::*;

verus! {

/// The time after a flashing sequence in which there is no other, in
/// nanoseconds.
pub const FLASH_COOLDOWN: u64 = 1_000_000_000;

/// The time between reports of the level, in nanoseconds.
pub const REPORT_INTERVAL: u64 = 1_000_000_000;

/// The pause at the end of every round, in microseconds.
pub const FRAME_PAUSE_MICROS: u64 = 50_000;

/// How a command came out.
#[derive(Clone, Copy, Debug)]
pub enum Signal {
    /// It has been carried out.
    Ready,
    /// Whether the program is to run on.
    Running { running: bool },
    /// The current level.
    Level { db: Binary32 },
    /// The time, in nanoseconds.
    Clock { now: u64 },
}

/// What to do next.
#[derive(Clone, Copy, Debug)]
pub enum Command {
    /// Find out whether the program is to run on.
    PollRunning,
    /// Read the current level.
    ReadLevel,
    /// Read the clock.
    ReadClock,
    /// Print the level.
    Report { db: Binary32 },
    /// Run the flashing sequence.
    Flash { db: Binary32 },
    /// Fill the display with a colour.
    Show { color: (u8, u8, u8) },
    /// Wait.
    Pause { micros: u64 },
    /// Darken the display.
    Clear,
    /// Nothing is left to do.
    Quit,
}

/// The signal that a visualizer waits for.
#[derive(Clone, Copy, Debug)]
pub enum Phase {
    Polling,
    Reading,
    TimingReport { db: Binary32 },
    Reporting { db: Binary32 },
    StampingReport { db: Binary32 },
    TimingFlash { db: Binary32 },
    Flashing,
    StampingFlash,
    Showing,
    Resting,
    Clearing,
    Stopped,
}

/// The state of the loop.
#[derive(Clone, Copy, Debug)]
pub struct Visualizer {
    pub phase: Phase,
    pub current_color: (u8, u8, u8),
    pub last_flash_time: u64,
    pub last_report_time: u64,
}

/// The level calls for the flashing sequence.
pub open spec fn loud(db: Binary32) -> bool {
    !db.is_nan() && !less(db, Binary32 { bits: FLASH_THRESHOLD })
}

impl Visualizer {
    /// A level kept until the time since the last flashing sequence is known is
    /// a loud one.
    pub open spec fn well_formed(&self) -> bool {
        self.phase matches Phase::TimingFlash { db } ==> loud(db)
    }

    /// The signal answers the command last given.
    pub open spec fn awaits(&self, signal: Signal) -> bool {
        match self.phase {
            Phase::Polling => signal is Running,
            Phase::Reading => signal is Level,
            Phase::TimingReport { .. } => signal is Clock,
            Phase::StampingReport { .. } => signal is Clock,
            Phase::TimingFlash { .. } => signal is Clock,
            Phase::StampingFlash => signal is Clock,
            _ => signal is Ready,
        }
    }

    /// The step that shows the next colour on the way to that of the level.
    pub open spec fn to_show(self, db: Binary32) -> (Visualizer, Command) {
        let color = blend_color(self.current_color, color_of(db));
        (
            Visualizer { phase: Phase::Showing, current_color: color, ..self },
            Command::Show { color },
        )
    }

    /// The step that follows the report: a loud level asks for the time since
    /// the last flashing sequence.
    pub open spec fn to_display(self, db: Binary32) -> (Visualizer, Command) {
        if loud(db) {
            (Visualizer { phase: Phase::TimingFlash { db }, ..self }, Command::ReadClock)
        } else {
            self.to_show(db)
        }
    }

    /// The next state and command.
    pub open spec fn after(self, signal: Signal) -> (Visualizer, Command) {
        match (self.phase, signal) {
            (Phase::Polling, Signal::Running { running }) => if running {
                (Visualizer { phase: Phase::Reading, ..self }, Command::ReadLevel)
            } else {
                (Visualizer { phase: Phase::Clearing, ..self }, Command::Clear)
            },
            (Phase::Reading, Signal::Level { db }) => (
                Visualizer { phase: Phase::TimingReport { db }, ..self },
                Command::ReadClock,
            ),
            (Phase::TimingReport { db }, Signal::Clock { now }) => if elapsed(
                self.last_report_time,
                now,
            ) >= REPORT_INTERVAL {
                (Visualizer { phase: Phase::Reporting { db }, ..self }, Command::Report { db })
            } else {
                self.to_display(db)
            },
            (Phase::Reporting { db }, Signal::Ready) => (
                Visualizer { phase: Phase::StampingReport { db }, ..self },
                Command::ReadClock,
            ),
            (Phase::StampingReport { db }, Signal::Clock { now }) => Visualizer {
                last_report_time: now,
                ..self
            }.to_display(db),
            (Phase::TimingFlash { db }, Signal::Clock { now }) => if elapsed(
                self.last_flash_time,
                now,
            ) >= FLASH_COOLDOWN {
                (Visualizer { phase: Phase::Flashing, ..self }, Command::Flash { db })
            } else {
                self.to_show(db)
            },
            (Phase::Flashing, Signal::Ready) => (
                Visualizer { phase: Phase::StampingFlash, ..self },
                Command::ReadClock,
            ),
            (Phase::StampingFlash, Signal::Clock { now }) => (
                Visualizer {
                    phase: Phase::Resting,
                    current_color: (255, 0, 0),
                    last_flash_time: now,
                    ..self
                },
                Command::Pause { micros: FRAME_PAUSE_MICROS },
            ),
            (Phase::Showing, Signal::Ready) => (
                Visualizer { phase: Phase::Resting, ..self },
                Command::Pause { micros: FRAME_PAUSE_MICROS },
            ),
            (Phase::Resting, Signal::Ready) => (
                Visualizer { phase: Phase::Polling, ..self },
                Command::PollRunning,
            ),
            _ => (Visualizer { phase: Phase::Stopped, ..self }, Command::Quit),
        }
    }

    /// A loop that is about to begin with `PollRunning`: a dark display, and
    /// both times starting from the clock as it was read for each.
    pub fn new(flash_clock: u64, report_clock: u64) -> (v: Visualizer)
        ensures
            v == (Visualizer {
                phase: Phase::Polling,
                current_color: (0, 0, 0),
                last_flash_time: flash_clock,
                last_report_time: report_clock,
            }),
            v.well_formed(),
    {
        Visualizer {
            phase: Phase::Polling,
            current_color: (0, 0, 0),
            last_flash_time: flash_clock,
            last_report_time: report_clock,
        }
    }

    fn show(&mut self, db: Binary32) -> (command: Command)
        ensures
            (*final(self), command) == old(self).to_show(db),
    {
        let color: (u8, u8, u8) = smooth_color(self.current_color, db_to_color(db));
        self.current_color = color;
        self.phase = Phase::Showing;
        Command::Show { color }
    }

    fn display(&mut self, db: Binary32) -> (command: Command)
        ensures
            (*final(self), command) == old(self).to_display(db),
    {
        if !db.not_a_number() && !db.less_than(Binary32::from_bits(FLASH_THRESHOLD)) {
            self.phase = Phase::TimingFlash { db };
            Command::ReadClock
        } else {
            self.show(db)
        }
    }

    /// The next command, after the signal that answers the one before.
    pub fn step(&mut self, signal: Signal) -> (command: Command)
        requires
            old(self).awaits(signal),
        ensures
            (*final(self), command) == old(self).after(signal),
            old(self).well_formed() ==> final(self).well_formed(),
    {
        match (self.phase, signal) {
            (Phase::Polling, Signal::Running { running }) => {
                if running {
                    self.phase = Phase::Reading;
                    Command::ReadLevel
                } else {
                    self.phase = Phase::Clearing;
                    Command::Clear
                }
            },
            (Phase::Reading, Signal::Level { db }) => {
                self.phase = Phase::TimingReport { db };
                Command::ReadClock
            },
            (Phase::TimingReport { db }, Signal::Clock { now }) => {
                if time_between(self.last_report_time, now) >= REPORT_INTERVAL {
                    self.phase = Phase::Reporting { db };
                    Command::Report { db }
                } else {
                    self.display(db)
                }
            },
            (Phase::Reporting { db }, Signal::Ready) => {
                self.phase = Phase::StampingReport { db };
                Command::ReadClock
            },
            (Phase::StampingReport { db }, Signal::Clock { now }) => {
                self.last_report_time = now;
                self.display(db)
            },
            (Phase::TimingFlash { db }, Signal::Clock { now }) => {
                if time_between(self.last_flash_time, now) >= FLASH_COOLDOWN {
                    self.phase = Phase::Flashing;
                    Command::Flash { db }
                } else {
                    self.show(db)
                }
            },
            (Phase::Flashing, Signal::Ready) => {
                self.phase = Phase::StampingFlash;
                Command::ReadClock
            },
            (Phase::StampingFlash, Signal::Clock { now }) => {
                self.last_flash_time = now;
                self.current_color = (255, 0, 0);
                self.phase = Phase::Resting;
                Command::Pause { micros: FRAME_PAUSE_MICROS }
            },
            (Phase::Showing, Signal::Ready) => {
                self.phase = Phase::Resting;
                Command::Pause { micros: FRAME_PAUSE_MICROS }
            },
            (Phase::Resting, Signal::Ready) => {
                self.phase = Phase::Polling;
                Command::PollRunning
            },
            _ => {
                self.phase = Phase::Stopped;
                Command::Quit
            },
        }
    }
}

/// A command tells which signal answers it: after any command but `Quit`, the
/// loop waits for a signal of just the sort that the command asks for. It begins
/// by waiting for the answer to `PollRunning`.
pub proof fn law_command_tells_signal(v: Visualizer, signal: Signal, reply: Signal)
    requires
        v.awaits(signal),
    ensures
        v.after(signal).1 !is Quit ==> (v.after(signal).0.awaits(reply) <==> match v.after(
            signal,
        ).1 {
            Command::PollRunning => reply is Running,
            Command::ReadLevel => reply is Level,
            Command::ReadClock => reply is Clock,
            _ => reply is Ready,
        }),
        v.phase is Polling ==> (v.awaits(reply) <==> reply is Running),
{
}

/// The state after a list of signals.
pub open spec fn after_all(v: Visualizer, signals: Seq<Signal>) -> Visualizer
    decreases signals.len(),
{
    if signals.len() == 0 {
        v
    } else {
        after_all(v, signals.drop_last()).after(signals.last()).0
    }
}

/// The command given on the signal at a position of a list.
pub open spec fn command_at(v: Visualizer, signals: Seq<Signal>, i: int) -> Command {
    after_all(v, signals.take(i)).after(signals[i]).1
}

/// The flashing sequence begins only where the level is loud and the cooldown
/// since the last one is over, and only the clock read at its end sets the time
/// of the last one.
pub proof fn law_flash_only_when_due(v: Visualizer, signal: Signal)
    requires
        v.well_formed(),
    ensures
        v.after(signal).1 matches Command::Flash { db } ==> loud(db) && signal is Clock && elapsed(
            v.last_flash_time,
            signal->now,
        ) >= FLASH_COOLDOWN,
        v.after(signal).0.last_flash_time != v.last_flash_time ==> v.phase is StampingFlash
            && signal == (Signal::Clock { now: v.after(signal).0.last_flash_time }),
{
}

/// The phase follows a flashing sequence that has not been timed yet.
spec fn flash_under_way(phase: Phase) -> bool {
    phase is Flashing || phase is StampingFlash
}

/// Leaving out the last signal changes no command but the last, which is given
/// by the state that the others lead to.
proof fn lemma_without_last(v: Visualizer, signals: Seq<Signal>)
    requires
        signals.len() > 0,
    ensures
        forall|i: int|
            0 <= i < signals.len() - 1 ==> #[trigger] command_at(v, signals.drop_last(), i)
                == command_at(v, signals, i),
        command_at(v, signals, signals.len() - 1) == after_all(v, signals.drop_last()).after(
            signals.last(),
        ).1,
{
    let shorter = signals.drop_last();
    assert forall|i: int| 0 <= i < signals.len() - 1 implies #[trigger] command_at(v, shorter, i)
        == command_at(v, signals, i) by {
        assert(shorter.take(i) =~= signals.take(i));
    }
    assert(signals.take(signals.len() - 1) =~= shorter);
}

proof fn lemma_no_flash_keeps_time(v: Visualizer, signals: Seq<Signal>)
    requires
        !flash_under_way(v.phase),
        forall|i: int|
            0 <= i < signals.len() ==> !((#[trigger] command_at(v, signals, i)) is Flash),
    ensures
        !flash_under_way(after_all(v, signals).phase),
        after_all(v, signals).last_flash_time == v.last_flash_time,
    decreases signals.len(),
{
    if signals.len() > 0 {
        lemma_without_last(v, signals);
        lemma_no_flash_keeps_time(v, signals.drop_last());
        assert(!(command_at(v, signals, signals.len() - 1) is Flash));
    }
}

/// Between the end of a flashing sequence, at the time `end`, and the beginning
/// of the next, at the time `now`, lies at least the cooldown, whatever happens
/// in between.
pub proof fn law_flashes_are_apart(v: Visualizer, end: u64, signals: Seq<Signal>, now: u64)
    requires
        v.phase is StampingFlash,
        forall|i: int|
            0 <= i < signals.len() ==> !((#[trigger] command_at(
                v.after(Signal::Clock { now: end }).0,
                signals,
                i,
            )) is Flash),
        after_all(v.after(Signal::Clock { now: end }).0, signals).after(
            Signal::Clock { now },
        ).1 is Flash,
    ensures
        now >= end + FLASH_COOLDOWN,
{
    lemma_no_flash_keeps_time(v.after(Signal::Clock { now: end }).0, signals);
}

proof fn lemma_no_report_keeps_time(v: Visualizer, signals: Seq<Signal>)
    requires
        !(v.phase is Reporting),
        !(v.phase is StampingReport),
        forall|i: int|
            0 <= i < signals.len() ==> !((#[trigger] command_at(v, signals, i)) is Report),
    ensures
        !(after_all(v, signals).phase is Reporting),
        !(after_all(v, signals).phase is StampingReport),
        after_all(v, signals).last_report_time == v.last_report_time,
    decreases signals.len(),
{
    if signals.len() > 0 {
        lemma_without_last(v, signals);
        lemma_no_report_keeps_time(v, signals.drop_last());
        assert(!(command_at(v, signals, signals.len() - 1) is Report));
    }
}

/// Between two reports of the level lies at least the report interval.
pub proof fn law_reports_are_apart(v: Visualizer, end: u64, signals: Seq<Signal>, now: u64)
    requires
        v.phase is StampingReport,
        forall|i: int|
            0 <= i < signals.len() ==> !((#[trigger] command_at(
                v.after(Signal::Clock { now: end }).0,
                signals,
                i,
            )) is Report),
        after_all(v.after(Signal::Clock { now: end }).0, signals).after(
            Signal::Clock { now },
        ).1 is Report,
    ensures
        now >= end + REPORT_INTERVAL,
{
    lemma_no_report_keeps_time(v.after(Signal::Clock { now: end }).0, signals);
}

/// A round at a level that is not loud, with no report due, moves the displayed
/// colour one step towards that of the level, rests and begins anew.
pub proof fn law_quiet_round(v: Visualizer, db: Binary32, now: u64)
    requires
        v.phase is Polling,
        !loud(db),
        elapsed(v.last_report_time, now) < REPORT_INTERVAL,
    ensures
        ({
            let (a, c1) = v.after(Signal::Running { running: true });
            let (b, c2) = a.after(Signal::Level { db });
            let (c, c3) = b.after(Signal::Clock { now });
            let (d, c4) = c.after(Signal::Ready);
            let (e, c5) = d.after(Signal::Ready);
            let color = blend_color(v.current_color, color_of(db));
            &&& c1 == Command::ReadLevel
            &&& c2 == Command::ReadClock
            &&& c3 == (Command::Show { color })
            &&& c4 == (Command::Pause { micros: FRAME_PAUSE_MICROS })
            &&& c5 == Command::PollRunning
            &&& e == (Visualizer { current_color: color, ..v })
        }),
{
}

/// A round at a loud level, with no report due and the cooldown over, flashes
/// and leaves the displayed colour red.
pub proof fn law_loud_round(v: Visualizer, db: Binary32, now: u64, later: u64, end: u64)
    requires
        v.phase is Polling,
        loud(db),
        elapsed(v.last_report_time, now) < REPORT_INTERVAL,
        elapsed(v.last_flash_time, later) >= FLASH_COOLDOWN,
    ensures
        ({
            let (a, c1) = v.after(Signal::Running { running: true });
            let (b, c2) = a.after(Signal::Level { db });
            let (c, c3) = b.after(Signal::Clock { now });
            let (d, c4) = c.after(Signal::Clock { now: later });
            let (e, c5) = d.after(Signal::Ready);
            let (f, c6) = e.after(Signal::Clock { now: end });
            let (g, c7) = f.after(Signal::Ready);
            &&& c1 == Command::ReadLevel
            &&& c2 == Command::ReadClock
            &&& c3 == Command::ReadClock
            &&& c4 == (Command::Flash { db })
            &&& c5 == Command::ReadClock
            &&& c6 == (Command::Pause { micros: FRAME_PAUSE_MICROS })
            &&& c7 == Command::PollRunning
            &&& g == (Visualizer { current_color: (255, 0, 0), last_flash_time: end, ..v })
        }),
{
}

/// A level is loud from -20 decibels on; what is not a number is not loud.
pub proof fn law_loud_from_twenty_below(db: Binary32)
    ensures
        loud(db) <==> !db.is_nan() && db.units() >= -20 * pow2(149),
{
    lemma_level_sizes();
}

/// A round at a loud level less than a second after the last flashing sequence,
/// with no report due, shows the next colour as a quiet round does, and keeps it.
/// Red goes up unless it is almost full, and the other channels go down.
pub proof fn law_cooling_round(v: Visualizer, db: Binary32, now: u64, later: u64)
    requires
        v.phase is Polling,
        loud(db),
        elapsed(v.last_report_time, now) < 1_000_000_000,
        elapsed(v.last_flash_time, later) < 1_000_000_000,
    ensures
        ({
            let (a, c1) = v.after(Signal::Running { running: true });
            let (b, c2) = a.after(Signal::Level { db });
            let (c, c3) = b.after(Signal::Clock { now });
            let (d, c4) = c.after(Signal::Clock { now: later });
            let (e, c5) = d.after(Signal::Ready);
            let (f, c6) = e.after(Signal::Ready);
            let color = f.current_color;
            &&& c1 == Command::ReadLevel
            &&& c2 == Command::ReadClock
            &&& c3 == Command::ReadClock
            &&& c4 == (Command::Show { color })
            &&& c5 == (Command::Pause { micros: 50_000 })
            &&& c6 == Command::PollRunning
            &&& f == (Visualizer { current_color: color, ..v })
            &&& color == blend_color(v.current_color, color_of(db))
            &&& color.0 >= v.current_color.0
            &&& v.current_color.0 < 249 ==> color.0 > v.current_color.0
            &&& v.current_color.1 > 0 ==> color.1 < v.current_color.1
            &&& v.current_color.2 > 0 ==> color.2 < v.current_color.2
        }),
{
    assert(color_of(db) == (255u8, 0u8, 0u8)) by {
        law_loud_from_twenty_below(db);
        lemma_loud_is_red(db);
    }
    law_every_channel_is_smoothed(v.current_color, color_of(db));
}

/// Every loud level is shown as red.
proof fn lemma_loud_is_red(db: Binary32)
    requires
        loud(db),
    ensures
        color_of(db) == (255u8, 0u8, 0u8),
{
    lemma_level_sizes();
    lemma_landmark_sizes();
}

/// A round in which a report is due, a second or more after the last one, first
/// reports the level and notes the time, and then goes on as a round does that
/// begins with a report just made.
pub proof fn law_report_round(v: Visualizer, db: Binary32, now: u64, stamp: u64)
    requires
        v.phase is Polling,
        elapsed(v.last_report_time, now) >= 1_000_000_000,
    ensures
        ({
            let (a, c1) = v.after(Signal::Running { running: true });
            let (b, c2) = a.after(Signal::Level { db });
            let (c, c3) = b.after(Signal::Clock { now });
            let (d, c4) = c.after(Signal::Ready);
            let fresh = Visualizer { last_report_time: stamp, ..v };
            let reading = fresh.after(Signal::Running { running: true }).0;
            let timing = reading.after(Signal::Level { db }).0;
            &&& c1 == Command::ReadLevel
            &&& c2 == Command::ReadClock
            &&& c3 == (Command::Report { db })
            &&& c4 == Command::ReadClock
            &&& d.after(Signal::Clock { now: stamp }) == timing.after(Signal::Clock { now: stamp })
        }),
{
}

/// Once it has stopped, the loop does nothing more.
pub proof fn law_stopped_stays(v: Visualizer, signal: Signal)
    requires
        v.phase is Stopped,
    ensures
        v.after(signal) == (v, Command::Quit),
{
}

/// Told to stop, the loop darkens the display and quits.
pub proof fn law_stop_darkens(v: Visualizer)
    requires
        v.phase is Polling,
    ensures
        v.after(Signal::Running { running: false }).1 == Command::Clear,
        v.after(Signal::Running { running: false }).0.after(Signal::Ready).1 == Command::Quit,
{
}

/// The displayed colour never has any blue, from a dark display on.
pub proof fn law_display_never_blue(v: Visualizer, signal: Signal)
    requires
        v.current_color.2 == 0,
    ensures
        v.after(signal).0.current_color.2 == 0,
{
    law_step_approaches_target(0, 0);
    assert forall|db: Binary32| (#[trigger] color_of(db)).2 == 0 by {}
}

} // verus!

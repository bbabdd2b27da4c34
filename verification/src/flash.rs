//! The flashing sequence: random pixels in random colours, for five seconds.
use crate::chip::{after, law_pixel_effect, Chip};
use crate::clock::{elapsed, time_between};
use crate::dice::Dice;
use crate::driver::{led_index, pixel_steps, BusStep, HEIGHT, SenseHatLED, WIDTH};
use rand::rngs::ThreadRng;
use rand::Rng;
use vstd::prelude::*;

verus! {

/// How long the sequence lasts, in nanoseconds.
pub const FLASH_DURATION: u64 = 5_000_000_000;

/// The pause after every pixel, in microseconds.
pub const SPARKLE_PAUSE_MICROS: u64 = 1_000;

/// The random number generator of the current thread, `rand::rngs::ThreadRng`.
/// Nothing is known of its state.
#[verifier::external_type_specification]
#[verifier::external_body]
pub struct ExThreadRng(rand::rngs::ThreadRng);

/// Calls `rand::rng`, which hands out the generator of the current thread.
/// Nothing is claimed of the generator. The call panics where the operating
/// system has no randomness to seed it with; no argument rules that out.
#[verifier::external_body]
pub(crate) fn thread_generator() -> ThreadRng {
    rand::rng()
}

/// Calls `rand::Rng::random_range` on the range from 0 to `bound`, `bound`
/// excluded. The range is not empty, on which the call would panic, and the
/// number it returns lies in the range. Which number it is, chance decides. The
/// call also panics where the generator is due for a new seed and the operating
/// system has no randomness for it; no argument rules that out.
#[verifier::external_body]
pub(crate) fn random_below(generator: &mut ThreadRng, bound: usize) -> (n: usize)
    requires
        bound > 0,
    ensures
        n < bound,
{
    generator.random_range(0..bound)
}

/// A pixel and a colour drawn at random.
#[derive(Clone, Copy, Debug, PartialEq, Eq, Structural)]
pub struct Sparkle {
    pub x: usize,
    pub y: usize,
    pub r: u8,
    pub g: u8,
    pub b: u8,
}

impl Sparkle {
    /// The pixel lies on the matrix.
    pub open spec fn on_matrix(&self) -> bool {
        self.x < WIDTH && self.y < HEIGHT
    }

    /// The steps that light the pixel, and the pause after it.
    pub open spec fn steps(&self) -> Seq<BusStep> {
        pixel_steps(self.x as int, self.y as int, self.r, self.g, self.b).push(
            BusStep::Pause { micros: SPARKLE_PAUSE_MICROS },
        )
    }

    /// The draws that make the sparkle: a column and a row of the matrix, and
    /// red, green and blue, each of 256 values.
    pub open spec fn draws(&self) -> Seq<(usize, usize)> {
        seq![
            (8usize, self.x),
            (8usize, self.y),
            (256usize, self.r as usize),
            (256usize, self.g as usize),
            (256usize, self.b as usize),
        ]
    }

    /// The pixel and the colour that five numbers drawn stand for: column, row,
    /// red, green and blue.
    pub fn from_draws(x: usize, y: usize, r: usize, g: usize, b: usize) -> (sparkle: Sparkle)
        requires
            x < WIDTH,
            y < HEIGHT,
            r < 256,
            g < 256,
            b < 256,
        ensures
            sparkle.on_matrix(),
            sparkle.x == x,
            sparkle.y == y,
            sparkle.r == r,
            sparkle.g == g,
            sparkle.b == b,
    {
        Sparkle { x, y, r: r as u8, g: g as u8, b: b as u8 }
    }
}

/// The sequence goes on: the program runs, and the time is not up.
pub open spec fn goes_on(running: bool, start: u64, now: u64) -> bool {
    running && elapsed(start, now) < FLASH_DURATION
}

/// Once the time is up, it stays up, and the sequence does not go on.
pub proof fn law_flashing_ends(running: bool, start: u64, now: u64, later: u64)
    requires
        elapsed(start, now) >= FLASH_DURATION,
        now <= later,
    ensures
        !goes_on(running, start, later),
{
}

/// The sequence goes on exactly while the program runs and fewer than five
/// seconds have passed since its start.
pub proof fn law_flashing_lasts_five_seconds(running: bool, start: u64, now: u64)
    ensures
        goes_on(running, start, now) <==> running && now < start + 5_000_000_000,
{
}

/// A sparkle is the numbers drawn for it: others make another sparkle.
pub proof fn law_draws_make_the_sparkle(a: Sparkle, b: Sparkle)
    ensures
        a.draws() == b.draws() ==> a == b,
        a.draws().len() == 5,
        a.draws()[0] == (8usize, a.x),
        a.draws()[1] == (8usize, a.y),
        a.draws()[2] == (256usize, a.r as usize),
        a.draws()[3] == (256usize, a.g as usize),
        a.draws()[4] == (256usize, a.b as usize),
{
    if a.draws() == b.draws() {
        assert(a.draws()[0] == b.draws()[0]);
        assert(a.draws()[1] == b.draws()[1]);
        assert(a.draws()[2] == b.draws()[2]);
        assert(a.draws()[3] == b.draws()[3]);
        assert(a.draws()[4] == b.draws()[4]);
    }
}

/// A sparkle lights the LED of its own column and row, with the mean of its own
/// channels, changes no other brightness, and is followed by a pause of a
/// millisecond.
pub proof fn law_sparkle_lights_its_pixel(chip: Chip, sparkle: Sparkle)
    requires
        sparkle.on_matrix(),
    ensures
        ({
            let end = after(chip, sparkle.steps());
            let own = (0x1D + 8 * sparkle.y + sparkle.x) as u8;
            let level = end.registers[(0u8, own)];
            &&& end.registers.dom().contains((0u8, own))
            &&& 3 * level <= sparkle.r + sparkle.g + sparkle.b < 3 * level + 3
            &&& end.registers[(0u8, (0x0B + sparkle.y) as u8)] == 0xFF
            &&& forall|at: (u8, u8)|
                at != (0u8, own) && at != (0u8, (0x0B + sparkle.y) as u8)
                    ==> #[trigger] end.registers[at] == chip.registers[at]
            &&& sparkle.steps().last() == (BusStep::Pause { micros: 1_000 })
        }),
{
    let lit = pixel_steps(sparkle.x as int, sparkle.y as int, sparkle.r, sparkle.g, sparkle.b);
    law_pixel_effect(
        chip,
        sparkle.x as int,
        sparkle.y as int,
        sparkle.r,
        sparkle.g,
        sparkle.b,
    );
    assert(sparkle.steps().drop_last() =~= lit);
}

/// The steps that light a pixel that was drawn, and the pause after it.
pub fn sparkle_steps(led: &SenseHatLED, sparkle: Sparkle) -> (steps: Vec<BusStep>)
    requires
        sparkle.on_matrix(),
    ensures
        steps@ == sparkle.steps(),
{
    proof {
        assert(led_index(sparkle.x as int, sparkle.y as int) == sparkle.y * 8 + sparkle.x);
    }
    let mut steps: Vec<BusStep> = led.set_pixel(
        sparkle.x,
        sparkle.y,
        sparkle.r,
        sparkle.g,
        sparkle.b,
    );
    steps.push(BusStep::Pause { micros: SPARKLE_PAUSE_MICROS });
    steps
}

/// A flashing sequence under way.
pub struct Flashing {
    start: u64,
    dice: Dice,
}

impl Flashing {
    /// When the sequence began, in nanoseconds.
    pub closed spec fn start(&self) -> u64 {
        self.start
    }

    /// The numbers drawn so far, oldest first, each after the bound below which
    /// it was drawn.
    pub closed spec fn drawn(&self) -> Seq<(usize, usize)> {
        self.dice.drawn()
    }

    /// A sequence that begins now.
    pub fn begin(now: u64) -> (flashing: Flashing)
        ensures
            flashing.start() == now,
            flashing.drawn() == Seq::<(usize, usize)>::empty(),
    {
        Flashing { start: now, dice: Dice::new() }
    }

    /// Draws a pixel of the matrix and a colour. Chance decides which: they are
    /// made of the five numbers drawn.
    pub fn draw(&mut self) -> (sparkle: Sparkle)
        ensures
            sparkle.on_matrix(),
            final(self).drawn() == old(self).drawn() + sparkle.draws(),
            final(self).start() == old(self).start(),
    {
        let x: usize = self.dice.roll(WIDTH);
        let y: usize = self.dice.roll(HEIGHT);
        let r: usize = self.dice.roll(256);
        let g: usize = self.dice.roll(256);
        let b: usize = self.dice.roll(256);
        let sparkle: Sparkle = Sparkle::from_draws(x, y, r, g, b);
        proof {
            assert(self.drawn() =~= old(self).drawn() + sparkle.draws());
        }
        sparkle
    }

    /// The steps of the next pixel, or `None` where the sequence is over: the
    /// program is to stop or the time is up. The steps light the pixel that the
    /// five numbers drawn for it stand for, and end with a pause.
    pub fn flashing_sequence(
        &mut self,
        led: &SenseHatLED,
        running: bool,
        now: u64,
    ) -> (steps: Option<Vec<BusStep>>)
        ensures
            final(self).start() == old(self).start(),
            steps is Some <==> goes_on(running, old(self).start(), now),
            steps matches Some(s) ==> exists|sparkle: Sparkle|
                sparkle.on_matrix() && s@ == #[trigger] sparkle.steps() && final(self).drawn()
                    == old(self).drawn() + sparkle.draws(),
            steps is None ==> final(self).drawn() == old(self).drawn(),
    {
        if running && time_between(self.start, now) < FLASH_DURATION {
            let sparkle: Sparkle = self.draw();
            Some(sparkle_steps(led, sparkle))
        } else {
            None
        }
    }
}

} // verus!

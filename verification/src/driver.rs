//! The register writes that drive the LED matrix.
//!
//! The matrix hangs on an IS31FL3731 LED driver. Every operation is a list of
//! bus steps: register writes, each followed by a short pause. A frame of the
//! driver has 18 bytes of enable bits and 144 bytes of brightness, in registers
//! that follow one another.
use vstd::prelude::*;

verus! {

/// The width of the matrix.
pub const WIDTH: usize = 8;

/// The height of the matrix.
pub const HEIGHT: usize = 8;

/// The register that says which picture is on display.
pub const REG_PICTURE_DISPLAY: u8 = 0x01;

/// The register of display options.
pub const REG_DISPLAY_OPTION: u8 = 0x05;

/// The register that shuts the chip down (0) or runs it (1).
pub const REG_SHUTDOWN: u8 = 0x0A;

/// The register that selects the frame that further writes go to.
pub const REG_FRAME_SELECT: u8 = 0xFD;

/// The first register of a frame.
pub const FRAME_REG_BASE: u8 = 0x0B;

/// The number of registers with enable bits.
pub const ENABLE_REGISTERS: u8 = 18;

/// The number of registers with brightness.
pub const PWM_REGISTERS: u8 = 144;

/// The pause after every write, in microseconds.
pub const WRITE_PAUSE_MICROS: u64 = 100;

/// The pause after the chip is switched on, in microseconds.
pub const WAKE_PAUSE_MICROS: u64 = 10_000;

/// What a write belongs to, for the words in which its failure is told.
#[derive(Clone, Copy, Debug, PartialEq, Eq, Structural)]
pub enum Stage {
    Drawing,
    Shutdown,
    DisplayOption,
    PictureDisplay,
    ClearFrame,
}

/// One step on the bus.
#[derive(Clone, Copy, Debug, PartialEq, Eq, Structural)]
pub enum BusStep {
    Write { reg: u8, value: u8, stage: Stage },
    Pause { micros: u64 },
}

/// The steps of one register write.
pub open spec fn register_steps(reg: u8, value: u8, stage: Stage) -> Seq<BusStep> {
    seq![BusStep::Write { reg, value, stage }, BusStep::Pause { micros: WRITE_PAUSE_MICROS }]
}

/// The steps that write one value to `count` registers that follow one another.
pub open spec fn block_steps(first: u8, count: u8, value: u8, stage: Stage) -> Seq<BusStep> {
    Seq::new(
        2 * count as nat,
        |i: int|
            if i % 2 == 0 {
                BusStep::Write { reg: (first + i / 2) as u8, value, stage }
            } else {
                BusStep::Pause { micros: WRITE_PAUSE_MICROS }
            },
    )
}

/// The steps that select a frame and write all of it.
pub open spec fn frame_steps(frame: u8, enable: u8, pwm: u8, stage: Stage) -> Seq<BusStep> {
    register_steps(REG_FRAME_SELECT, frame, stage) + block_steps(
        FRAME_REG_BASE,
        ENABLE_REGISTERS,
        enable,
        stage,
    ) + block_steps((FRAME_REG_BASE + ENABLE_REGISTERS) as u8, PWM_REGISTERS, pwm, stage)
}

/// The brightness that stands for a colour: the mean of its channels.
pub open spec fn brightness(r: u8, g: u8, b: u8) -> u8 {
    ((r + g + b) / 3) as u8
}

/// The number of the LED at a place of the matrix.
pub open spec fn led_index(x: int, y: int) -> int {
    (y * 8 + x) % 256
}

/// The steps that light one LED.
pub open spec fn pixel_steps(x: int, y: int, r: u8, g: u8, b: u8) -> Seq<BusStep> {
    register_steps(REG_FRAME_SELECT, 0, Stage::Drawing) + register_steps(
        (FRAME_REG_BASE + led_index(x, y) / 8) as u8,
        0xFF,
        Stage::Drawing,
    ) + register_steps(
        (FRAME_REG_BASE + ENABLE_REGISTERS + led_index(x, y)) as u8,
        brightness(r, g, b),
        Stage::Drawing,
    )
}

/// The steps that bring the chip up.
pub open spec fn init_steps() -> Seq<BusStep> {
    register_steps(REG_SHUTDOWN, 0x01, Stage::Shutdown) + seq![
        BusStep::Pause { micros: WAKE_PAUSE_MICROS },
    ] + register_steps(REG_DISPLAY_OPTION, 0x00, Stage::DisplayOption) + register_steps(
        REG_PICTURE_DISPLAY,
        0x00,
        Stage::PictureDisplay,
    ) + frame_steps(0, 0x00, 0x00, Stage::ClearFrame)
}

/// The LED matrix behind the chip at a bus address.
#[derive(Clone, Copy, Debug, PartialEq, Eq, Structural)]
pub struct SenseHatLED {
    pub address: u8,
}

fn push_register(steps: &mut Vec<BusStep>, reg: u8, value: u8, stage: Stage)
    ensures
        final(steps)@ == old(steps)@ + register_steps(reg, value, stage),
{
    steps.push(BusStep::Write { reg, value, stage });
    steps.push(BusStep::Pause { micros: WRITE_PAUSE_MICROS });
    proof {
        assert(steps@ =~= old(steps)@ + register_steps(reg, value, stage));
    }
}

fn push_block(steps: &mut Vec<BusStep>, first: u8, count: u8, value: u8, stage: Stage)
    requires
        first + count <= 0x100,
    ensures
        final(steps)@ == old(steps)@ + block_steps(first, count, value, stage),
{
    let ghost before = steps@;
    let mut i: u8 = 0;
    while i < count
        invariant
            i <= count,
            first + count <= 0x100,
            steps@ == before + block_steps(first, i, value, stage),
        decreases count - i,
    {
        push_register(steps, first + i, value, stage);
        proof {
            assert(block_steps(first, (i + 1) as u8, value, stage) =~= block_steps(
                first,
                i,
                value,
                stage,
            ) + register_steps((first + i) as u8, value, stage));
            assert(steps@ =~= before + block_steps(first, (i + 1) as u8, value, stage));
        }
        i = i + 1;
    }
}

fn push_frame(steps: &mut Vec<BusStep>, frame: u8, enable: u8, pwm: u8, stage: Stage)
    ensures
        final(steps)@ == old(steps)@ + frame_steps(frame, enable, pwm, stage),
{
    push_register(steps, REG_FRAME_SELECT, frame, stage);
    push_block(steps, FRAME_REG_BASE, ENABLE_REGISTERS, enable, stage);
    push_block(steps, FRAME_REG_BASE + ENABLE_REGISTERS, PWM_REGISTERS, pwm, stage);
    proof {
        assert(steps@ =~= old(steps)@ + frame_steps(frame, enable, pwm, stage));
    }
}

fn mean_brightness(r: u8, g: u8, b: u8) -> (m: u8)
    ensures
        m == brightness(r, g, b),
{
    ((r as u16 + g as u16 + b as u16) / 3) as u8
}

impl SenseHatLED {
    /// Brings the chip up: normal operation, frame 0 on display and dark.
    pub fn init(&self) -> (steps: Vec<BusStep>)
        ensures
            steps@ == init_steps(),
    {
        let mut steps: Vec<BusStep> = Vec::new();
        push_register(&mut steps, REG_SHUTDOWN, 0x01, Stage::Shutdown);
        steps.push(BusStep::Pause { micros: WAKE_PAUSE_MICROS });
        push_register(&mut steps, REG_DISPLAY_OPTION, 0x00, Stage::DisplayOption);
        push_register(&mut steps, REG_PICTURE_DISPLAY, 0x00, Stage::PictureDisplay);
        push_frame(&mut steps, 0, 0x00, 0x00, Stage::ClearFrame);
        proof {
            assert(steps@ =~= init_steps());
        }
        steps
    }

    /// Writes one register.
    pub fn write_register(&self, reg: u8, value: u8) -> (steps: Vec<BusStep>)
        ensures
            steps@ == register_steps(reg, value, Stage::Drawing),
    {
        let mut steps: Vec<BusStep> = Vec::new();
        push_register(&mut steps, reg, value, Stage::Drawing);
        proof {
            assert(steps@ =~= register_steps(reg, value, Stage::Drawing));
        }
        steps
    }

    /// Selects the frame that further writes go to.
    pub fn select_frame(&self, frame: u8) -> (steps: Vec<BusStep>)
        ensures
            steps@ == register_steps(REG_FRAME_SELECT, frame, Stage::Drawing),
    {
        self.write_register(REG_FRAME_SELECT, frame)
    }

    /// Darkens a frame: no LED enabled, no brightness.
    pub fn clear_frame(&self, frame: u8) -> (steps: Vec<BusStep>)
        ensures
            steps@ == frame_steps(frame, 0x00, 0x00, Stage::Drawing),
    {
        let mut steps: Vec<BusStep> = Vec::new();
        push_frame(&mut steps, frame, 0x00, 0x00, Stage::Drawing);
        proof {
            assert(steps@ =~= frame_steps(frame, 0x00, 0x00, Stage::Drawing));
        }
        steps
    }

    /// Lights the LED at a place of the matrix, with the brightness of a colour.
    /// The enable bits of its whole row are set with it.
    pub fn set_pixel(&self, x: usize, y: usize, r: u8, g: u8, b: u8) -> (steps: Vec<BusStep>)
        requires
            y * 8 + x <= usize::MAX,
            led_index(x as int, y as int) <= 0xFF - FRAME_REG_BASE - ENABLE_REGISTERS,
        ensures
            steps@ == pixel_steps(x as int, y as int, r, g, b),
    {
        let index: u8 = ((y * 8 + x) % 256) as u8;
        let mut steps: Vec<BusStep> = Vec::new();
        push_register(&mut steps, REG_FRAME_SELECT, 0, Stage::Drawing);
        push_register(&mut steps, FRAME_REG_BASE + index / 8, 0xFF, Stage::Drawing);
        push_register(
            &mut steps,
            FRAME_REG_BASE + ENABLE_REGISTERS + index,
            mean_brightness(r, g, b),
            Stage::Drawing,
        );
        proof {
            assert(steps@ =~= pixel_steps(x as int, y as int, r, g, b));
        }
        steps
    }

    /// Lights every LED with the brightness of a colour.
    pub fn fill_all(&self, r: u8, g: u8, b: u8) -> (steps: Vec<BusStep>)
        ensures
            steps@ == frame_steps(0, 0xFF, brightness(r, g, b), Stage::Drawing),
    {
        let mut steps: Vec<BusStep> = Vec::new();
        push_frame(&mut steps, 0, 0xFF, mean_brightness(r, g, b), Stage::Drawing);
        proof {
            assert(steps@ =~= frame_steps(0, 0xFF, brightness(r, g, b), Stage::Drawing));
        }
        steps
    }

    /// Darkens the display.
    pub fn clear(&self) -> (steps: Vec<BusStep>)
        ensures
            steps@ == frame_steps(0, 0x00, 0x00, Stage::Drawing),
    {
        self.clear_frame(0)
    }
}

} // verus!

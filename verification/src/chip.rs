//! What the register writes do to the LED driver.
//!
//! The driver holds a number of frames of registers. A write to the
//! frame-select register chooses a frame; any other write goes to the register
//! of that number in the frame chosen last.
use crate::driver::{
    block_steps, brightness, frame_steps, init_steps, led_index, pixel_steps, register_steps,
    BusStep, ENABLE_REGISTERS, FRAME_REG_BASE, PWM_REGISTERS, REG_FRAME_SELECT, Stage,
};
use vstd::prelude::*;

verus! {

/// The state of the driver, as far as writes change it: the frame chosen last
/// and the value of every register of every frame that has been written.
#[verifier::ext_equal]
pub ghost struct Chip {
    pub frame: u8,
    pub registers: Map<(u8, u8), u8>,
}

/// The driver after one step.
pub open spec fn after_step(chip: Chip, step: BusStep) -> Chip {
    match step {
        BusStep::Write { reg, value, stage } => if reg == REG_FRAME_SELECT {
            Chip { frame: value, ..chip }
        } else {
            Chip { registers: chip.registers.insert((chip.frame, reg), value), ..chip }
        },
        BusStep::Pause { micros } => chip,
    }
}

/// The driver after a list of steps.
pub open spec fn after(chip: Chip, steps: Seq<BusStep>) -> Chip
    decreases steps.len(),
{
    if steps.len() == 0 {
        chip
    } else {
        after_step(after(chip, steps.drop_last()), steps.last())
    }
}

/// A register among the enable bits or the brightness of a frame.
pub open spec fn in_frame(reg: u8) -> bool {
    FRAME_REG_BASE <= reg < FRAME_REG_BASE + ENABLE_REGISTERS + PWM_REGISTERS
}

/// The registers with a whole frame written.
pub open spec fn with_frame(
    registers: Map<(u8, u8), u8>,
    frame: u8,
    enable: u8,
    pwm: u8,
) -> Map<(u8, u8), u8> {
    Map::new(
        |at: (u8, u8)| registers.dom().contains(at) || (at.0 == frame && in_frame(at.1)),
        |at: (u8, u8)|
            if at.0 == frame && in_frame(at.1) {
                if at.1 < FRAME_REG_BASE + ENABLE_REGISTERS {
                    enable
                } else {
                    pwm
                }
            } else {
                registers[at]
            },
    )
}

proof fn lemma_after_concat(chip: Chip, a: Seq<BusStep>, b: Seq<BusStep>)
    ensures
        after(chip, a + b) == after(after(chip, a), b),
    decreases b.len(),
{
    if b.len() == 0 {
        assert(a + b =~= a);
    } else {
        lemma_after_concat(chip, a, b.drop_last());
        assert((a + b).drop_last() =~= a + b.drop_last());
        assert((a + b).last() == b.last());
    }
}

proof fn lemma_after_register(chip: Chip, reg: u8, value: u8, stage: Stage)
    ensures
        after(chip, register_steps(reg, value, stage)) == after_step(
            chip,
            BusStep::Write { reg, value, stage },
        ),
{
    let steps = register_steps(reg, value, stage);
    let first = steps.drop_last();
    assert(first.len() == 1);
    assert(first.drop_last() =~= Seq::<BusStep>::empty());
    reveal_with_fuel(after, 3);
}

proof fn lemma_after_block(chip: Chip, first: u8, count: u8, value: u8, stage: Stage)
    requires
        first + count <= REG_FRAME_SELECT,
    ensures
        ({
            let end = after(chip, block_steps(first, count, value, stage));
            &&& end.frame == chip.frame
            &&& forall|at: (u8, u8)|
                #![trigger end.registers.dom().contains(at)]
                #![trigger end.registers[at]]
                {
                    let written = at.0 == chip.frame && first <= at.1 < first + count;
                    &&& end.registers.dom().contains(at) <==> chip.registers.dom().contains(at)
                        || written
                    &&& written ==> end.registers[at] == value
                    &&& !written ==> end.registers[at] == chip.registers[at]
                }
        }),
    decreases count,
{
    if count == 0 {
        assert(block_steps(first, count, value, stage) =~= Seq::<BusStep>::empty());
    } else {
        let n = (count - 1) as u8;
        let last = (first + n) as u8;
        lemma_after_block(chip, first, n, value, stage);
        assert(block_steps(first, count, value, stage) =~= block_steps(first, n, value, stage)
            + register_steps(last, value, stage));
        lemma_after_concat(
            chip,
            block_steps(first, n, value, stage),
            register_steps(last, value, stage),
        );
        lemma_after_register(
            after(chip, block_steps(first, n, value, stage)),
            last,
            value,
            stage,
        );
    }
}

/// Writing a frame selects it, sets all of its enable bits and brightness, and
/// changes nothing else.
pub proof fn law_frame_write(chip: Chip, frame: u8, enable: u8, pwm: u8, stage: Stage)
    ensures
        after(chip, frame_steps(frame, enable, pwm, stage)) == (Chip {
            frame,
            registers: with_frame(chip.registers, frame, enable, pwm),
        }),
{
    let select = register_steps(REG_FRAME_SELECT, frame, stage);
    let bits = block_steps(FRAME_REG_BASE, ENABLE_REGISTERS, enable, stage);
    let start = (FRAME_REG_BASE + ENABLE_REGISTERS) as u8;
    let levels = block_steps(start, PWM_REGISTERS, pwm, stage);
    lemma_after_concat(chip, select + bits, levels);
    lemma_after_concat(chip, select, bits);
    lemma_after_register(chip, REG_FRAME_SELECT, frame, stage);
    let one = after(chip, select);
    lemma_after_block(one, FRAME_REG_BASE, ENABLE_REGISTERS, enable, stage);
    let two = after(one, bits);
    lemma_after_block(two, start, PWM_REGISTERS, pwm, stage);
    let end = after(two, levels);
    assert(end.registers =~= with_frame(chip.registers, frame, enable, pwm));
}

/// Filling the display lights every LED of frame 0 with one brightness,
/// whatever was there before.
pub proof fn law_fill_lights_all(chip: Chip, r: u8, g: u8, b: u8)
    ensures
        ({
            let end = after(chip, frame_steps(0, 0xFF, brightness(r, g, b), Stage::Drawing));
            &&& forall|reg: u8|
                FRAME_REG_BASE <= reg < FRAME_REG_BASE + ENABLE_REGISTERS
                    ==> #[trigger] end.registers[(0u8, reg)] == 0xFF
            &&& forall|reg: u8|
                FRAME_REG_BASE + ENABLE_REGISTERS <= reg < FRAME_REG_BASE + ENABLE_REGISTERS
                    + PWM_REGISTERS ==> #[trigger] end.registers[(0u8, reg)] == brightness(r, g, b)
        }),
{
    law_frame_write(chip, 0, 0xFF, brightness(r, g, b), Stage::Drawing);
}

/// A frame that is written twice holds what was written last, as if the first
/// write had not been: clearing undoes filling, and the last colour wins.
pub proof fn law_frame_write_replaces(
    chip: Chip,
    frame: u8,
    first: (u8, u8),
    second: (u8, u8),
    stage: Stage,
)
    ensures
        ({
            let again = frame_steps(frame, second.0, second.1, stage);
            after(after(chip, frame_steps(frame, first.0, first.1, stage)), again) == after(
                chip,
                again,
            )
        }),
{
    law_frame_write(chip, frame, first.0, first.1, stage);
    let once = after(chip, frame_steps(frame, first.0, first.1, stage));
    law_frame_write(once, frame, second.0, second.1, stage);
    law_frame_write(chip, frame, second.0, second.1, stage);
    assert(with_frame(once.registers, frame, second.0, second.1) =~= with_frame(
        chip.registers,
        frame,
        second.0,
        second.1,
    ));
}

/// Lighting a pixel writes its brightness and the enable bits of its row, on
/// frame 0, and changes nothing else. A place so far outside the matrix that its
/// brightness register would be the frame-select register is left out.
pub proof fn law_pixel_write(chip: Chip, x: int, y: int, r: u8, g: u8, b: u8)
    requires
        0 <= x,
        0 <= y,
        led_index(x, y) <= 0xFF - FRAME_REG_BASE - ENABLE_REGISTERS,
        FRAME_REG_BASE + ENABLE_REGISTERS + led_index(x, y) != REG_FRAME_SELECT,
    ensures
        after(chip, pixel_steps(x, y, r, g, b)) == (Chip {
            frame: 0,
            registers: chip.registers.insert(
                (0u8, (FRAME_REG_BASE + led_index(x, y) / 8) as u8),
                0xFF,
            ).insert(
                (0u8, (FRAME_REG_BASE + ENABLE_REGISTERS + led_index(x, y)) as u8),
                brightness(r, g, b),
            ),
        }),
{
    let index = led_index(x, y);
    let row = (FRAME_REG_BASE + index / 8) as u8;
    let level = (FRAME_REG_BASE + ENABLE_REGISTERS + index) as u8;
    let a = register_steps(REG_FRAME_SELECT, 0, Stage::Drawing);
    let e = register_steps(row, 0xFF, Stage::Drawing);
    let l = register_steps(level, brightness(r, g, b), Stage::Drawing);
    lemma_after_concat(chip, a + e, l);
    lemma_after_concat(chip, a, e);
    lemma_after_register(chip, REG_FRAME_SELECT, 0, Stage::Drawing);
    lemma_after_register(after(chip, a), row, 0xFF, Stage::Drawing);
    lemma_after_register(after(after(chip, a), e), level, brightness(r, g, b), Stage::Drawing);
}

/// The brightness of a colour is the mean of its channels, cut to a whole
/// number.
pub proof fn law_brightness_is_mean(r: u8, g: u8, b: u8)
    ensures
        3 * brightness(r, g, b) <= r + g + b < 3 * brightness(r, g, b) + 3,
{
}

/// Writing a frame sends the frame number to register 0xFD, the enable bits to
/// registers 0x0B to 0x1C and the brightness to registers 0x1D to 0xAC, in this
/// order, with a pause of 100 microseconds after every write.
pub proof fn law_frame_order(frame: u8, enable: u8, pwm: u8, stage: Stage)
    ensures
        ({
            let steps = frame_steps(frame, enable, pwm, stage);
            &&& steps.len() == 326
            &&& steps[0] == (BusStep::Write { reg: 0xFD, value: frame, stage })
            &&& forall|i: int|
                0 <= i < 18 ==> #[trigger] steps[2 * i + 2] == (BusStep::Write {
                    reg: (0x0B + i) as u8,
                    value: enable,
                    stage,
                })
            &&& forall|i: int|
                0 <= i < 144 ==> #[trigger] steps[2 * i + 38] == (BusStep::Write {
                    reg: (0x1D + i) as u8,
                    value: pwm,
                    stage,
                })
            &&& forall|i: int|
                0 <= i < 163 ==> #[trigger] steps[2 * i + 1] == (BusStep::Pause { micros: 100 })
        }),
{
    let steps = frame_steps(frame, enable, pwm, stage);
    let select = register_steps(REG_FRAME_SELECT, frame, stage);
    let bits = block_steps(FRAME_REG_BASE, ENABLE_REGISTERS, enable, stage);
    let levels = block_steps((FRAME_REG_BASE + ENABLE_REGISTERS) as u8, PWM_REGISTERS, pwm, stage);
    assert(steps =~= select + bits + levels);
    assert forall|i: int| 0 <= i < 18 implies #[trigger] steps[2 * i + 2] == (BusStep::Write {
        reg: (0x0B + i) as u8,
        value: enable,
        stage,
    }) by {
        assert(steps[2 * i + 2] == bits[2 * i]);
    }
    assert forall|i: int| 0 <= i < 144 implies #[trigger] steps[2 * i + 38] == (BusStep::Write {
        reg: (0x1D + i) as u8,
        value: pwm,
        stage,
    }) by {
        assert(steps[2 * i + 38] == levels[2 * i]);
    }
    assert forall|i: int| 0 <= i < 163 implies #[trigger] steps[2 * i + 1] == (BusStep::Pause {
        micros: 100,
    }) by {
        if i == 0 {
            assert(steps[1] == select[1]);
        } else if i < 19 {
            assert(steps[2 * i + 1] == bits[2 * i - 1]);
        } else {
            assert(steps[2 * i + 1] == levels[2 * i - 37]);
        }
    }
}

/// One register write sends the register and its value, and pauses for 100
/// microseconds.
pub proof fn law_register_order(reg: u8, value: u8, stage: Stage)
    ensures
        register_steps(reg, value, stage).len() == 2,
        register_steps(reg, value, stage)[0] == (BusStep::Write { reg, value, stage }),
        register_steps(reg, value, stage)[1] == (BusStep::Pause { micros: 100 }),
{
}

/// Lighting a pixel selects frame 0, sets the enable bits of its row and then its
/// brightness, with a pause of 100 microseconds after every write.
pub proof fn law_pixel_order(x: int, y: int, r: u8, g: u8, b: u8)
    requires
        0 <= x,
        0 <= y,
        led_index(x, y) <= 226,
    ensures
        ({
            let steps = pixel_steps(x, y, r, g, b);
            let index = led_index(x, y);
            let stage = Stage::Drawing;
            let pause = BusStep::Pause { micros: 100 };
            &&& steps.len() == 6
            &&& steps[0] == (BusStep::Write { reg: 0xFD, value: 0, stage })
            &&& steps[1] == pause
            &&& steps[2] == (BusStep::Write { reg: (0x0B + index / 8) as u8, value: 0xFF, stage })
            &&& steps[3] == pause
            &&& steps[4] matches BusStep::Write { reg, value, stage: s }
            &&& reg == 0x1D + index
            &&& 3 * value <= r + g + b < 3 * value + 3
            &&& s == stage
            &&& steps[5] == pause
        }),
{
}

/// The LEDs are numbered row by row, eight to a row, and places 256 apart share
/// a number.
pub proof fn law_led_numbers(x: int, y: int)
    requires
        0 <= x,
        0 <= y,
    ensures
        0 <= led_index(x, y) < 256,
        led_index(0, 0) == 0,
        8 * y + x < 256 ==> led_index(x, y) == 8 * y + x,
        led_index(x + 256, y) == led_index(x, y),
        led_index(x, y + 32) == led_index(x, y),
        led_index(x + 8, y) == led_index(x, y + 1),
{
}

/// The chip is brought up by running it, and after a pause of 10 milliseconds by
/// choosing frame 0 for display, and frame 0 is darkened at last. Every write has
/// a pause of 100 microseconds after it, and the name of its own stage.
pub proof fn law_init_order()
    ensures
        ({
            let steps = init_steps();
            let pause = BusStep::Pause { micros: 100 };
            &&& steps.len() == 333
            &&& steps[0] == (BusStep::Write { reg: 0x0A, value: 1, stage: Stage::Shutdown })
            &&& steps[1] == pause
            &&& steps[2] == (BusStep::Pause { micros: 10_000 })
            &&& steps[3] == (BusStep::Write { reg: 0x05, value: 0, stage: Stage::DisplayOption })
            &&& steps[4] == pause
            &&& steps[5] == (BusStep::Write { reg: 0x01, value: 0, stage: Stage::PictureDisplay })
            &&& steps[6] == pause
            &&& steps.skip(7) == frame_steps(0, 0, 0, Stage::ClearFrame)
        }),
{
    assert(init_steps().skip(7) =~= frame_steps(0, 0, 0, Stage::ClearFrame));
}

/// Filling the display sets the enable bits of every LED of frame 0, and as its
/// brightness the mean of the channels, and changes no other register.
pub proof fn law_fill_effect(chip: Chip, r: u8, g: u8, b: u8)
    ensures
        ({
            let end = after(chip, frame_steps(0, 0xFF, brightness(r, g, b), Stage::Drawing));
            &&& end.frame == 0
            &&& forall|reg: u8|
                0x0B <= reg < 0x1D ==> #[trigger] end.registers[(0u8, reg)] == 0xFF
            &&& forall|reg: u8|
                0x1D <= reg < 0xAD ==> 3 * (#[trigger] end.registers[(0u8, reg)]) <= r + g + b < 3
                    * end.registers[(0u8, reg)] + 3
            &&& forall|at: (u8, u8)|
                at.0 != 0 || at.1 < 0x0B || at.1 >= 0xAD ==> #[trigger] end.registers[at]
                    == chip.registers[at]
        }),
{
    law_frame_write(chip, 0, 0xFF, brightness(r, g, b), Stage::Drawing);
    lemma_frame_write_at(chip, 0, 0xFF, brightness(r, g, b), Stage::Drawing);
}

/// Darkening a frame clears all of its enable bits and brightness, and changes
/// no other register.
pub proof fn law_clear_effect(chip: Chip, frame: u8, stage: Stage)
    ensures
        ({
            let end = after(chip, frame_steps(frame, 0, 0, stage));
            &&& end.frame == frame
            &&& forall|reg: u8|
                0x0B <= reg < 0xAD ==> #[trigger] end.registers[(frame, reg)] == 0
            &&& forall|at: (u8, u8)|
                at.0 != frame || at.1 < 0x0B || at.1 >= 0xAD ==> #[trigger] end.registers[at]
                    == chip.registers[at]
        }),
{
    law_frame_write(chip, frame, 0, 0, stage);
    lemma_frame_write_at(chip, frame, 0, 0, stage);
}

/// What a register holds after a frame is written.
proof fn lemma_frame_write_at(chip: Chip, frame: u8, enable: u8, pwm: u8, stage: Stage)
    ensures
        ({
            let end = after(chip, frame_steps(frame, enable, pwm, stage));
            forall|at: (u8, u8)|
                #![trigger end.registers[at]]
                {
                    let written = at.0 == frame && 0x0B <= at.1 < 0xAD;
                    &&& written && at.1 < 0x1D ==> end.registers[at] == enable
                    &&& written && at.1 >= 0x1D ==> end.registers[at] == pwm
                    &&& !written ==> end.registers[at] == chip.registers[at]
                }
        }),
{
    let select = register_steps(REG_FRAME_SELECT, frame, stage);
    let bits = block_steps(FRAME_REG_BASE, ENABLE_REGISTERS, enable, stage);
    let start = (FRAME_REG_BASE + ENABLE_REGISTERS) as u8;
    let levels = block_steps(start, PWM_REGISTERS, pwm, stage);
    lemma_after_concat(chip, select + bits, levels);
    lemma_after_concat(chip, select, bits);
    lemma_after_register(chip, REG_FRAME_SELECT, frame, stage);
    let one = after(chip, select);
    lemma_after_block(one, FRAME_REG_BASE, ENABLE_REGISTERS, enable, stage);
    lemma_after_block(after(one, bits), start, PWM_REGISTERS, pwm, stage);
}

/// Lighting a pixel of the matrix gives the LED of its column and row the mean
/// of the channels as its brightness, sets the enable bits of its row, and
/// changes no other register.
pub proof fn law_pixel_effect(chip: Chip, x: int, y: int, r: u8, g: u8, b: u8)
    requires
        0 <= x < 8,
        0 <= y < 8,
    ensures
        ({
            let end = after(chip, pixel_steps(x, y, r, g, b));
            let own = (0x1D + 8 * y + x) as u8;
            let row = (0x0B + y) as u8;
            let level = end.registers[(0u8, own)];
            &&& end.frame == 0
            &&& end.registers.dom().contains((0u8, own))
            &&& 3 * level <= r + g + b < 3 * level + 3
            &&& end.registers[(0u8, row)] == 0xFF
            &&& forall|at: (u8, u8)|
                at != (0u8, own) && at != (0u8, row) ==> #[trigger] end.registers[at]
                    == chip.registers[at]
        }),
{
    assert(led_index(x, y) == y * 8 + x);
    assert((y * 8 + x) / 8 == y);
    law_pixel_write(chip, x, y, r, g, b);
}

/// No two places of the matrix share a brightness register, and two places
/// share an enable register exactly when they are in the same row.
pub proof fn law_pixels_are_distinct(x1: int, y1: int, x2: int, y2: int)
    requires
        0 <= x1 < 8,
        0 <= y1 < 8,
        0 <= x2 < 8,
        0 <= y2 < 8,
    ensures
        led_index(x1, y1) == led_index(x2, y2) <==> x1 == x2 && y1 == y2,
        led_index(x1, y1) / 8 == led_index(x2, y2) / 8 <==> y1 == y2,
        led_index(x1, y1) < PWM_REGISTERS,
{
    assert(led_index(x1, y1) == y1 * 8 + x1);
    assert(led_index(x2, y2) == y2 * 8 + x2);
    assert((y1 * 8 + x1) / 8 == y1);
    assert((y2 * 8 + x2) / 8 == y2);
}

/// Clearing the display undoes a pixel.
pub proof fn law_clear_undoes_pixel(chip: Chip, x: int, y: int, r: u8, g: u8, b: u8, stage: Stage)
    requires
        0 <= x,
        0 <= y,
        led_index(x, y) < PWM_REGISTERS,
    ensures
        ({
            let clear = frame_steps(0, 0x00, 0x00, stage);
            after(after(chip, pixel_steps(x, y, r, g, b)), clear) == after(chip, clear)
        }),
{
    law_pixel_write(chip, x, y, r, g, b);
    let drawn = after(chip, pixel_steps(x, y, r, g, b));
    law_frame_write(drawn, 0, 0, 0, stage);
    law_frame_write(chip, 0, 0, 0, stage);
    assert(with_frame(drawn.registers, 0, 0, 0) =~= with_frame(chip.registers, 0, 0, 0));
}

/// After the chip is brought up, frame 0 is selected and dark.
pub proof fn law_init_leaves_dark_frame(chip: Chip)
    ensures
        ({
            let end = after(chip, init_steps());
            &&& end.frame == 0
            &&& forall|reg: u8| in_frame(reg) ==> #[trigger] end.registers[(0u8, reg)] == 0
        }),
{
    let clear = frame_steps(0, 0x00, 0x00, Stage::ClearFrame);
    let n = init_steps().len() - clear.len();
    let before = init_steps().take(n);
    assert(init_steps() =~= before + clear);
    lemma_after_concat(chip, before, clear);
    law_frame_write(after(chip, before), 0, 0, 0, Stage::ClearFrame);
}

} // verus!

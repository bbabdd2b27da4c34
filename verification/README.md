# sense_hat_meter

A sound level meter on the LED matrix of a Sense HAT: silence is dark, quiet
sounds are green, medium ones yellow, loud ones red, and very loud ones set off
five seconds of random sparkles.

- `src/` is the logic, verified with Verus: single-precision arithmetic on bit
  patterns (`rounding`, `binary32`, `order`), the level of a block of samples
  (`level`, `loudness`), its colour (`color`, `smoothing`), the register writes
  of the LED driver and what they do to it (`driver`, `chip`, `transfer`), the
  search for the driver (`probe`), the flashing sequence (`flash`) and the
  display loop (`visualizer`). Functions named `law_` state what holds across
  several operations.
- `app/` is the program around it: the I2C bus, the microphone, the clock and
  Ctrl-C.
- `tests/` runs the library, the arithmetic against the machine's own.

Proofs rest on two things about the `rand` crate, both in `src/flash.rs`: that a
generator can be had, and that a number drawn below a bound is below it.

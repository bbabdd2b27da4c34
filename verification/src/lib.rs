//! A sound level meter on the LED matrix of a Sense HAT.
//!
//! Samples become a level in decibels ([`level`]), the level a colour
//! ([`color`]), and the colour register writes to the LED driver ([`driver`]).
//! What waits for hardware, the clock or the user is a state machine that says
//! what to do next: [`probe`] finds the driver, [`transfer`] carries out writes,
//! [`flash`] is the flashing sequence and [`visualizer`] the display loop.
//! Numbers are single precision, held and computed as bit patterns
//! ([`binary32`]). Functions named `law_` state what holds of them: that results
//! are the closest numbers ([`exactness`]), how exactly a block is measured
//! ([`accuracy`]), what the writes do to the driver ([`chip`]), and more beside the
//! functions they are about.
pub mod accuracy;
pub mod binary32;
pub mod chip;
pub mod clock;
pub mod color;
pub mod dice;
pub mod driver;
pub mod exactness;
pub mod flash;
pub mod level;
pub mod loudness;
pub mod order;
pub mod probe;
pub mod rounding;
pub mod smoothing;
pub mod text;
pub mod transfer;
pub mod visualizer;

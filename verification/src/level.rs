//! From audio samples to a level in decibels.
//!
//! A block of samples has a root mean square between 0 and 1, and 20 times its
//! decimal logarithm is its level, held between `MIN_DB` and `MAX_DB`. The
//! logarithm itself is taken by the caller: `log_argument` says of what, and
//! `calculate_decibel` goes on from its value.
use crate::binary32::{difference, larger, product, quotient, root, smaller, sum, whole, Binary32};
use crate::rounding::lemma_size_zero;
use vstd::prelude::*;

verus! {

/// The lowest level, -80: silence.
pub const MIN_DB: u32 = 0xC2A0_0000;

/// The highest level, 0: full scale.
pub const MAX_DB: u32 = 0x0000_0000;

/// 20, the decibels of a factor of ten.
pub const DECIBELS_PER_DECADE: u32 = 0x41A0_0000;

/// 10^-10, the least number of which a logarithm is taken.
pub const LEAST_LOG_ARGUMENT: u32 = 0x2EDB_E6FF;

/// 32768, the scale of 16-bit samples.
pub const SAMPLE_SCALE: u32 = 0x4700_0000;

/// 0.
pub const ZERO: u32 = 0x0000_0000;

/// The number whose logarithm gives the level of a block with the given root
/// mean square, if any: none at 0 or below, and no less than 10^-10 otherwise,
/// also where the root mean square is not a number.
pub open spec fn log_argument_of(rms: Binary32) -> Option<Binary32> {
    if !rms.is_nan() && rms.units() <= 0 {
        None
    } else {
        Some(larger(rms, Binary32 { bits: LEAST_LOG_ARGUMENT }))
    }
}

/// The level for the decimal logarithm of the root mean square.
pub open spec fn decibel(log: Option<Binary32>) -> Binary32 {
    match log {
        None => Binary32 { bits: MIN_DB },
        Some(l) => smaller(
            larger(
                product(Binary32 { bits: DECIBELS_PER_DECADE }, l),
                Binary32 { bits: MIN_DB },
            ),
            Binary32 { bits: MAX_DB },
        ),
    }
}

/// The squares of the samples added up, first sample first.
pub open spec fn square_sum(samples: Seq<Binary32>) -> Binary32
    decreases samples.len(),
{
    if samples.len() == 0 {
        Binary32 { bits: ZERO }
    } else {
        sum(square_sum(samples.drop_last()), product(samples.last(), samples.last()))
    }
}

/// The root mean square of a block of samples, if it has any.
pub open spec fn root_mean_square(samples: Seq<Binary32>) -> Option<Binary32> {
    if samples.len() == 0 {
        None
    } else {
        Some(root(quotient(square_sum(samples), whole(samples.len() as int))))
    }
}

/// A signed 16-bit sample on the scale of -1 to 1.
pub open spec fn signed_sample(sample: i16) -> Binary32 {
    quotient(whole(sample as int), Binary32 { bits: SAMPLE_SCALE })
}

/// An unsigned 16-bit sample on the scale of -1 to 1, 32768 being the middle.
pub open spec fn unsigned_sample(sample: u16) -> Binary32 {
    quotient(
        difference(whole(sample as int), Binary32 { bits: SAMPLE_SCALE }),
        Binary32 { bits: SAMPLE_SCALE },
    )
}

/// A block of signed samples, each on the scale of -1 to 1.
pub open spec fn signed_samples(data: Seq<i16>) -> Seq<Binary32> {
    data.map_values(|sample: i16| signed_sample(sample))
}

/// A block of unsigned samples, each on the scale of -1 to 1.
pub open spec fn unsigned_samples(data: Seq<u16>) -> Seq<Binary32> {
    data.map_values(|sample: u16| unsigned_sample(sample))
}

/// The number whose decimal logarithm the level of a block needs; none for
/// silence.
pub fn log_argument(rms: Binary32) -> (r: Option<Binary32>)
    ensures
        r == log_argument_of(rms),
{
    let zero: Binary32 = Binary32::from_bits(ZERO);
    proof {
        lemma_size_zero();
        assert(zero.units() == 0);
    }
    if !rms.not_a_number() && !zero.less_than(rms) {
        None
    } else {
        Some(rms.max_of(Binary32::from_bits(LEAST_LOG_ARGUMENT)))
    }
}

/// The level for the decimal logarithm of the root mean square, `None` being
/// silence.
pub fn calculate_decibel(log: Option<Binary32>) -> (level: Binary32)
    ensures
        level == decibel(log),
{
    match log {
        None => Binary32::from_bits(MIN_DB),
        Some(l) => {
            let db: Binary32 = Binary32::from_bits(DECIBELS_PER_DECADE).times(l);
            db.max_of(Binary32::from_bits(MIN_DB)).min_of(Binary32::from_bits(MAX_DB))
        },
    }
}

/// One step of a sum of squares.
fn add_square(total: Binary32, sample: Binary32) -> (r: Binary32)
    ensures
        r == sum(total, product(sample, sample)),
{
    total.plus(sample.times(sample))
}

/// The root of the mean of `count` squares that add up to `total`.
fn root_of_mean(total: Binary32, count: usize) -> (r: Binary32)
    ensures
        r == root(quotient(total, whole(count as int))),
{
    total.divided_by(Binary32::from_usize(count)).square_root()
}

/// A signed 16-bit sample on the scale of -1 to 1.
pub fn normalize_signed(sample: i16) -> (r: Binary32)
    ensures
        r == signed_sample(sample),
{
    Binary32::from_i16(sample).divided_by(Binary32::from_bits(SAMPLE_SCALE))
}

/// An unsigned 16-bit sample on the scale of -1 to 1.
pub fn normalize_unsigned(sample: u16) -> (r: Binary32)
    ensures
        r == unsigned_sample(sample),
{
    let scale: Binary32 = Binary32::from_bits(SAMPLE_SCALE);
    Binary32::from_usize(sample as usize).minus(scale).divided_by(scale)
}

/// The root mean square of samples that are on the scale of -1 to 1 already.
pub fn rms_of_floats(data: &[Binary32]) -> (r: Option<Binary32>)
    ensures
        r == root_mean_square(data@),
{
    let count: usize = data.len();
    if count == 0 {
        return None;
    }
    let mut total: Binary32 = Binary32::from_bits(ZERO);
    let mut i: usize = 0;
    while i < count
        invariant
            i <= count,
            count == data@.len(),
            total == square_sum(data@.take(i as int)),
        decreases count - i,
    {
        total = add_square(total, data[i]);
        proof {
            assert(data@.take(i + 1).drop_last() =~= data@.take(i as int));
        }
        i = i + 1;
    }
    proof {
        assert(data@.take(i as int) =~= data@);
    }
    Some(root_of_mean(total, count))
}

/// The root mean square of signed 16-bit samples.
pub fn rms_of_signed(data: &[i16]) -> (r: Option<Binary32>)
    ensures
        r == root_mean_square(signed_samples(data@)),
{
    let count: usize = data.len();
    if count == 0 {
        return None;
    }
    let ghost samples = signed_samples(data@);
    let mut total: Binary32 = Binary32::from_bits(ZERO);
    let mut i: usize = 0;
    while i < count
        invariant
            i <= count,
            count == data@.len(),
            samples == signed_samples(data@),
            total == square_sum(samples.take(i as int)),
        decreases count - i,
    {
        total = add_square(total, normalize_signed(data[i]));
        proof {
            assert(samples.take(i + 1).drop_last() =~= samples.take(i as int));
        }
        i = i + 1;
    }
    proof {
        assert(samples.take(i as int) =~= samples);
    }
    Some(root_of_mean(total, count))
}

/// The root mean square of unsigned 16-bit samples.
pub fn rms_of_unsigned(data: &[u16]) -> (r: Option<Binary32>)
    ensures
        r == root_mean_square(unsigned_samples(data@)),
{
    let count: usize = data.len();
    if count == 0 {
        return None;
    }
    let ghost samples = unsigned_samples(data@);
    let mut total: Binary32 = Binary32::from_bits(ZERO);
    let mut i: usize = 0;
    while i < count
        invariant
            i <= count,
            count == data@.len(),
            samples == unsigned_samples(data@),
            total == square_sum(samples.take(i as int)),
        decreases count - i,
    {
        total = add_square(total, normalize_unsigned(data[i]));
        proof {
            assert(samples.take(i + 1).drop_last() =~= samples.take(i as int));
        }
        i = i + 1;
    }
    proof {
        assert(samples.take(i as int) =~= samples);
    }
    Some(root_of_mean(total, count))
}

} // verus!

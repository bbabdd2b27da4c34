//! What holds of levels, whatever the samples.
use crate::binary32::{
    difference, nearest, nearest_root, product, quotient, root, sum, whole, with_sign, Binary32,
};
use crate::color::{
    below, color_of, lemma_landmark_sizes, lemma_level_sizes, lemma_silence_is_black,
    FLASH_THRESHOLD, ONE,
};
use crate::exactness::{apart, law_product_is_closest};
use crate::level::{
    decibel, log_argument_of, root_mean_square, signed_sample, signed_samples, square_sum,
    unsigned_sample, unsigned_samples, DECIBELS_PER_DECADE, LEAST_LOG_ARGUMENT, MAX_DB, MIN_DB,
    SAMPLE_SCALE,
};
use crate::order::{
    lemma_nearest_defined, lemma_nearest_error, lemma_nearest_exact, lemma_nearest_order,
    lemma_nearest_root_defined, lemma_nearest_zero, lemma_order, lemma_product, lemma_quotient,
    lemma_representable, lemma_size_order, lemma_with_sign, place,
};
use crate::rounding::{
    exponent_of, is_nearest, is_nearest_root, lemma_nearest_root_monotone,
    lemma_nearest_root_unique, lemma_nearest_unique, lemma_size_increases, lemma_size_of_split,
    lemma_size_zero, lemma_split, size, INFINITY,
};
use vstd::arithmetic::power2::{lemma_pow2_adds, lemma_pow2_pos, lemma_pow2_unfold, pow2};
use vstd::prelude::*;

verus! {

/// 10.
pub const TEN: u32 = 0x4120_0000;

/// The level is always a number, and never leaves the range from `MIN_DB` to
/// `MAX_DB`.
pub proof fn law_level_in_range(log: Option<Binary32>)
    ensures
        !decibel(log).is_nan(),
        (Binary32 { bits: MIN_DB }).units() <= decibel(log).units(),
        decibel(log).units() <= (Binary32 { bits: MAX_DB }).units(),
{
    lemma_order(Binary32 { bits: MIN_DB }, Binary32 { bits: MAX_DB });
}

/// A larger logarithm gives no lower a level.
pub proof fn law_level_follows_logarithm(a: Binary32, b: Binary32)
    requires
        !a.is_nan(),
        !b.is_nan(),
        a.units() <= b.units(),
    ensures
        decibel(Some(a)).units() <= decibel(Some(b)).units(),
{
    let twenty = Binary32 { bits: DECIBELS_PER_DECADE };
    lemma_order(a, b);
    lemma_order(b, a);
    let x = product(twenty, a);
    let y = product(twenty, b);
    lemma_scaled_by_twenty(a);
    lemma_scaled_by_twenty(b);
    if a.negative() == b.negative() {
        if a.negative() {
            lemma_scaled_order(b.magnitude(), a.magnitude());
        } else {
            lemma_scaled_order(a.magnitude(), b.magnitude());
        }
    } else if b.negative() {
        assert(a.magnitude() == 0 && b.magnitude() == 0);
        lemma_scaled_zero();
    }
    lemma_with_sign(a.negative(), scaled(a.magnitude()));
    lemma_with_sign(b.negative(), scaled(b.magnitude()));
    assert(place(x) <= place(y));
    lemma_order(x, y);
    lemma_order(y, x);
    let low = Binary32 { bits: MIN_DB };
    lemma_order(x, low);
    lemma_order(y, low);
}

/// The pattern of 20 times a number.
spec fn scaled(m: int) -> int {
    if m == INFINITY {
        INFINITY as int
    } else {
        nearest(size(DECIBELS_PER_DECADE as int) * size(m), pow2(149) as int)
    }
}

proof fn lemma_scaled_by_twenty(a: Binary32)
    requires
        !a.is_nan(),
    ensures
        0 <= scaled(a.magnitude()) <= INFINITY,
        product(Binary32 { bits: DECIBELS_PER_DECADE }, a) == with_sign(
            a.negative(),
            scaled(a.magnitude()),
        ),
{
    if a.magnitude() < INFINITY {
        lemma_product(DECIBELS_PER_DECADE as int, a.magnitude());
    }
}

proof fn lemma_scaled_zero()
    ensures
        scaled(0) == 0,
{
    lemma_pow2_pos(149);
    let unit = pow2(149) as int;
    let k = size(DECIBELS_PER_DECADE as int);
    lemma_size_zero();
    assert(k * size(0) == 0 && unit * size(0) == 0) by (nonlinear_arith)
        requires
            size(0) == 0,
    ;
    lemma_nearest_zero(unit);
}

proof fn lemma_scaled_order(a: int, b: int)
    requires
        0 <= a <= b <= INFINITY,
    ensures
        0 <= scaled(a) <= scaled(b) <= INFINITY,
{
    lemma_pow2_pos(149);
    let unit = pow2(149) as int;
    let k = size(DECIBELS_PER_DECADE as int);
    if a < INFINITY {
        lemma_product(DECIBELS_PER_DECADE as int, a);
    }
    if b < INFINITY {
        lemma_product(DECIBELS_PER_DECADE as int, b);
        lemma_size_order(a, b);
        lemma_size_increases(0, DECIBELS_PER_DECADE as int);
        assert(k * size(a) * unit <= k * size(b) * unit) by (nonlinear_arith)
            requires
                size(a) <= size(b),
                k >= 0,
                unit > 0,
        ;
        lemma_nearest_order(k * size(a), unit, k * size(b), unit);
    }
}

/// The pattern of the sum of two numbers that are not negative.
spec fn plus(a: int, b: int) -> int {
    if a == INFINITY || b == INFINITY {
        INFINITY as int
    } else {
        nearest(size(a) + size(b), 1)
    }
}

/// The pattern of the square of a number.
spec fn square(a: int) -> int {
    if a == INFINITY {
        INFINITY as int
    } else {
        nearest(size(a) * size(a), pow2(149) as int)
    }
}

/// The pattern of the mean of `count` numbers with the given total.
spec fn mean(total: int, count: int) -> int {
    if total == INFINITY {
        INFINITY as int
    } else {
        nearest(size(total) * pow2(149), size(nearest(count * pow2(149), 1)))
    }
}

/// The pattern of the square root of a number.
spec fn root_pattern(a: int) -> int {
    if a == 0 || a == INFINITY {
        a
    } else {
        nearest_root(size(a) * pow2(149))
    }
}

proof fn lemma_plus(a: int, b: int)
    requires
        0 <= a <= INFINITY,
        0 <= b <= INFINITY,
    ensures
        0 <= plus(a, b) <= INFINITY,
        sum(with_sign(false, a), with_sign(false, b)) == with_sign(false, plus(a, b)),
{
    lemma_with_sign(false, a);
    lemma_with_sign(false, b);
    lemma_size_order(0, a);
    lemma_size_order(0, b);
    lemma_nearest_defined(size(a) + size(b), 1);
    if size(a) + size(b) == 0 {
        lemma_nearest_zero(1);
    }
}

proof fn lemma_plus_order(a: int, b: int, c: int, d: int)
    requires
        0 <= a <= c <= INFINITY,
        0 <= b <= d <= INFINITY,
    ensures
        plus(a, b) <= plus(c, d),
{
    lemma_plus(a, b);
    lemma_size_order(0, a);
    lemma_size_order(0, b);
    lemma_size_order(a, c);
    lemma_size_order(b, d);
    if c < INFINITY && d < INFINITY {
        lemma_nearest_order(size(a) + size(b), 1, size(c) + size(d), 1);
    }
}

proof fn lemma_square(a: Binary32)
    requires
        !a.is_nan(),
    ensures
        0 <= square(a.magnitude()) <= INFINITY,
        product(a, a) == with_sign(false, square(a.magnitude())),
{
    if a.magnitude() < INFINITY {
        lemma_product(a.magnitude(), a.magnitude());
    }
}

proof fn lemma_square_order(a: int, b: int)
    requires
        0 <= a <= b <= INFINITY,
    ensures
        0 <= square(a) <= square(b) <= INFINITY,
{
    lemma_pow2_pos(149);
    let unit = pow2(149) as int;
    if a < INFINITY {
        lemma_product(a, a);
    }
    if b < INFINITY {
        lemma_product(b, b);
        lemma_size_order(0, a);
        lemma_size_order(a, b);
        assert(size(a) * size(a) * unit <= size(b) * size(b) * unit) by (nonlinear_arith)
            requires
                0 <= size(a) <= size(b),
                unit > 0,
        ;
        lemma_nearest_order(size(a) * size(a), unit, size(b) * size(b), unit);
    }
}

/// A count of samples is a finite number, and at least 1.
pub proof fn lemma_count(count: int)
    requires
        1 <= count <= usize::MAX,
    ensures
        ONE <= nearest(count * pow2(149), 1) < INFINITY,
        whole(count) == with_sign(false, nearest(count * pow2(149), 1)),
{
    let unit = pow2(149) as int;
    lemma_pow2_pos(149);
    lemma_landmark_sizes();
    lemma_nearest_exact(unit, 1, ONE as int);
    assert(unit <= count * unit) by (nonlinear_arith)
        requires
            count >= 1,
            unit > 0,
    ;
    lemma_nearest_order(unit, 1, count * unit, 1);
    let top = lemma_representable(1, 213);
    vstd::arithmetic::power2::lemma2_to64();
    lemma_pow2_adds(64, 149);
    assert(count * unit <= 0x1_0000_0000_0000_0000 * unit) by (nonlinear_arith)
        requires
            count <= 0x1_0000_0000_0000_0000,
            unit > 0,
    ;
    lemma_nearest_exact(pow2(213) as int, 1, top);
    lemma_nearest_order(count * unit, 1, pow2(213) as int, 1);
}

proof fn lemma_mean(total: int, count: int)
    requires
        0 <= total <= INFINITY,
        1 <= count <= usize::MAX,
    ensures
        0 <= mean(total, count) <= INFINITY,
        quotient(with_sign(false, total), whole(count)) == with_sign(false, mean(total, count)),
{
    lemma_count(count);
    if total < INFINITY {
        lemma_quotient(total, nearest(count * pow2(149), 1));
    }
}

proof fn lemma_mean_order(a: int, b: int, count: int)
    requires
        0 <= a <= b <= INFINITY,
        1 <= count <= usize::MAX,
    ensures
        mean(a, count) <= mean(b, count),
{
    lemma_mean(a, count);
    lemma_count(count);
    let unit = pow2(149) as int;
    lemma_pow2_pos(149);
    if b < INFINITY {
        let n = nearest(count * pow2(149), 1);
        lemma_quotient(a, n);
        lemma_quotient(b, n);
        lemma_size_order(a, b);
        assert(size(a) * unit * size(n) <= size(b) * unit * size(n)) by (nonlinear_arith)
            requires
                size(a) <= size(b),
                unit > 0,
                size(n) > 0,
        ;
        lemma_nearest_order(size(a) * unit, size(n), size(b) * unit, size(n));
    }
}

proof fn lemma_root(a: int)
    requires
        0 <= a <= INFINITY,
    ensures
        0 <= root_pattern(a) <= INFINITY,
        root(with_sign(false, a)) == with_sign(false, root_pattern(a)),
{
    lemma_with_sign(false, a);
    lemma_size_order(0, a);
    lemma_pow2_pos(149);
    let unit = pow2(149) as int;
    assert(size(a) * unit >= 0) by (nonlinear_arith)
        requires
            size(a) >= 0,
            unit > 0,
    ;
    lemma_nearest_root_defined(size(a) * unit);
}

proof fn lemma_root_order(a: int, b: int)
    requires
        0 <= a <= b <= INFINITY,
    ensures
        root_pattern(a) <= root_pattern(b),
{
    lemma_root(a);
    lemma_root(b);
    if 0 < a && b < INFINITY {
        lemma_size_order(0, a);
        lemma_size_order(a, b);
        lemma_pow2_pos(149);
        let unit = pow2(149) as int;
        let m = size(a) * unit;
        let n = size(b) * unit;
        assert(0 <= m <= n) by (nonlinear_arith)
            requires
                0 <= size(a) <= size(b),
                unit > 0,
                m == size(a) * unit,
                n == size(b) * unit,
        ;
        lemma_nearest_root_defined(m);
        lemma_nearest_root_defined(n);
        lemma_nearest_root_monotone(m, nearest_root(m), n, nearest_root(n));
    }
}

/// None of the samples is other than a number.
pub open spec fn all_numbers(samples: Seq<Binary32>) -> bool {
    forall|i: int| 0 <= i < samples.len() ==> !(#[trigger] samples[i]).is_nan()
}

/// Every sample of `a` has at most the size of the sample of `b` beside it.
pub open spec fn no_louder(a: Seq<Binary32>, b: Seq<Binary32>) -> bool {
    &&& a.len() == b.len()
    &&& forall|i: int|
        #![trigger a[i]]
        #![trigger b[i]]
        0 <= i < a.len() ==> a[i].magnitude() <= b[i].magnitude()
}

/// The square sums of two blocks, as patterns.
proof fn lemma_square_sums(a: Seq<Binary32>, b: Seq<Binary32>) -> (r: (int, int))
    requires
        all_numbers(a),
        all_numbers(b),
        no_louder(a, b),
    ensures
        0 <= r.0 <= r.1 <= INFINITY,
        square_sum(a) == with_sign(false, r.0),
        square_sum(b) == with_sign(false, r.1),
    decreases a.len(),
{
    if a.len() == 0 {
        (0, 0)
    } else {
        let (x, y) = lemma_square_sums(a.drop_last(), b.drop_last());
        let p = square(a.last().magnitude());
        let q = square(b.last().magnitude());
        lemma_square(a.last());
        lemma_square(b.last());
        lemma_square_order(a.last().magnitude(), b.last().magnitude());
        lemma_plus(x, p);
        lemma_plus(y, q);
        lemma_plus_order(x, p, y, q);
        (plus(x, p), plus(y, q))
    }
}

/// Making samples larger never makes the root mean square smaller; it is a
/// number, and not a negative one.
pub proof fn law_louder_samples(a: Seq<Binary32>, b: Seq<Binary32>)
    requires
        0 < a.len() <= usize::MAX,
        all_numbers(a),
        all_numbers(b),
        no_louder(a, b),
    ensures
        root_mean_square(a) is Some,
        root_mean_square(b) is Some,
        !root_mean_square(a)->0.is_nan(),
        !root_mean_square(b)->0.is_nan(),
        0 <= root_mean_square(a)->0.units() <= root_mean_square(b)->0.units(),
{
    let n = a.len() as int;
    let (x, y) = lemma_square_sums(a, b);
    lemma_mean(x, n);
    lemma_mean(y, n);
    lemma_mean_order(x, y, n);
    lemma_root(mean(x, n));
    lemma_root(mean(y, n));
    lemma_root_order(mean(x, n), mean(y, n));
    let r = root_pattern(mean(x, n));
    let s = root_pattern(mean(y, n));
    lemma_with_sign(false, r);
    lemma_with_sign(false, s);
    lemma_size_order(0, r);
    lemma_size_order(r, s);
}

/// The squares of `n` samples of full scale add up to `n`, or to 2^24 where
/// that is less.
proof fn lemma_full_scale_sum(samples: Seq<Binary32>) -> (r: int)
    requires
        forall|i: int| 0 <= i < samples.len() ==> (#[trigger] samples[i]) == with_sign(
            false,
            ONE as int,
        ),
    ensures
        0 <= r < INFINITY,
        square_sum(samples) == with_sign(false, r),
        size(r) == (if samples.len() < 0x100_0000 {
            samples.len() as int
        } else {
            0x100_0000
        }) * pow2(149),
    decreases samples.len(),
{
    let unit = pow2(149) as int;
    lemma_pow2_pos(149);
    let n = samples.len() as int;
    if n == 0 {
        lemma_size_zero();
        0
    } else {
        let shorter = samples.drop_last();
        let r = lemma_full_scale_sum(shorter);
        lemma_landmark_sizes();
        lemma_square(samples.last());
        lemma_nearest_exact(unit * unit, unit, ONE as int);
        assert(square(ONE as int) == ONE);
        lemma_plus(r, ONE as int);
        let before = if n - 1 < 0x100_0000 {
            n - 1
        } else {
            0x100_0000
        };
        assert(size(r) + unit == (before + 1) * unit) by (nonlinear_arith)
            requires
                size(r) == before * unit,
        ;
        if n < 0x100_0000 {
            let s = lemma_representable(n, 149);
            lemma_nearest_exact(n * unit, 1, s);
            s
        } else if n == 0x100_0000 {
            let s: int = 149int * 0x80_0000 + 0x100_0000;
            lemma_size_of_split(149, 0x100_0000);
            lemma_nearest_exact(n * unit, 1, s);
            s
        } else {
            // Exactly half way to the next number: the even one, 2^24, stays.
            let s: int = 149int * 0x80_0000 + 0x100_0000;
            lemma_size_of_split(149, 0x100_0000);
            lemma_split(s);
            lemma_pow2_unfold(150);
            lemma_size_increases(s - 1, s);
            let total = 0x100_0001 * unit;
            assert(size(s) + size(s + 1) == 2 * total) by (nonlinear_arith)
                requires
                    size(s) == 0x100_0000 * unit,
                    size(s + 1) == size(s) + 2 * unit,
                    total == 0x100_0001 * unit,
            ;
            assert(total > size(s)) by (nonlinear_arith)
                requires
                    size(s) == 0x100_0000 * unit,
                    total == 0x100_0001 * unit,
                    unit > 0,
            ;
            assert(is_nearest(total, 1, s));
            lemma_nearest_unique(total, 1, nearest(total, 1), s);
            s
        }
    }
}

/// The total of `n` squares of full scale does not exceed `n`.
proof fn lemma_full_scale_total(samples: Seq<Binary32>) -> (r: int)
    requires
        0 < samples.len() <= usize::MAX,
        forall|i: int| 0 <= i < samples.len() ==> (#[trigger] samples[i]) == with_sign(
            false,
            ONE as int,
        ),
    ensures
        0 <= r <= nearest(samples.len() as int * pow2(149), 1),
        square_sum(samples) == with_sign(false, r),
{
    let n = samples.len() as int;
    let unit = pow2(149) as int;
    let total = lemma_full_scale_sum(samples);
    lemma_pow2_pos(149);
    assert(size(total) <= n * unit) by (nonlinear_arith)
        requires
            size(total) == (if n < 0x100_0000 {
                n
            } else {
                0x100_0000
            }) * unit,
            unit > 0,
    ;
    lemma_size_order(0, total);
    lemma_nearest_exact(size(total), 1, total);
    lemma_nearest_order(size(total), 1, n * unit, 1);
    total
}

/// A total that does not exceed the count has a mean of at most 1.
proof fn lemma_mean_at_most_one(total: int, count: int)
    requires
        1 <= count <= usize::MAX,
        0 <= total <= nearest(count * pow2(149), 1),
    ensures
        0 <= mean(total, count) <= ONE,
{
    let n = nearest(count * pow2(149), 1);
    let unit = pow2(149) as int;
    lemma_count(count);
    lemma_mean(total, count);
    lemma_mean_order(total, n, count);
    lemma_size_increases(0, n);
    lemma_landmark_sizes();
    lemma_nearest_exact(size(n) * unit, size(n), ONE as int);
}

/// The root mean square of samples of full scale is at most 1.
proof fn lemma_full_scale_root(samples: Seq<Binary32>)
    requires
        0 < samples.len() <= usize::MAX,
        forall|i: int| 0 <= i < samples.len() ==> (#[trigger] samples[i]) == with_sign(
            false,
            ONE as int,
        ),
    ensures
        root_mean_square(samples) is Some,
        root_mean_square(samples)->0.units() <= size(ONE as int),
{
    let n = samples.len() as int;
    let total = lemma_full_scale_total(samples);
    lemma_count(n);
    lemma_mean(total, n);
    lemma_mean_at_most_one(total, n);
    let m = mean(total, n);
    lemma_root(m);
    lemma_root_order(m, ONE as int);
    lemma_root_of_one();
    lemma_with_sign(false, root_pattern(m));
    lemma_size_order(root_pattern(m), ONE as int);
}

/// Samples between -1 and 1 have a root mean square between 0 and 1.
pub proof fn law_full_scale(samples: Seq<Binary32>)
    requires
        0 < samples.len() <= usize::MAX,
        forall|i: int| 0 <= i < samples.len() ==> (#[trigger] samples[i]).magnitude() <= ONE,
    ensures
        root_mean_square(samples) is Some,
        !root_mean_square(samples)->0.is_nan(),
        0 <= root_mean_square(samples)->0.units(),
        root_mean_square(samples)->0.units() <= (Binary32 { bits: ONE }).units(),
{
    let loudest = Seq::new(samples.len(), |i: int| with_sign(false, ONE as int));
    assert(all_numbers(loudest));
    assert(all_numbers(samples)) by {
        assert forall|i: int| 0 <= i < samples.len() implies !(#[trigger] samples[i]).is_nan() by {
            assert(samples[i].magnitude() <= ONE);
        }
    }
    assert(no_louder(samples, loudest));
    law_louder_samples(samples, loudest);
    lemma_full_scale_root(loudest);
}

proof fn lemma_root_of_one()
    ensures
        root_pattern(ONE as int) == ONE,
{
    let unit = pow2(149) as int;
    lemma_landmark_sizes();
    lemma_pow2_pos(149);
    let one = ONE as int;
    lemma_size_increases(one - 1, one);
    lemma_size_increases(one, one + 1);
    let low = size(one - 1) + size(one);
    let high = size(one) + size(one + 1);
    assert(low * low < 4 * (unit * unit)) by (nonlinear_arith)
        requires
            0 <= low < 2 * unit,
    ;
    assert(4 * (unit * unit) < high * high) by (nonlinear_arith)
        requires
            2 * unit < high,
            unit > 0,
    ;
    assert(is_nearest_root(unit * unit, one));
    lemma_nearest_root_unique(unit * unit, nearest_root(unit * unit), one);
}

/// A silent block needs no logarithm, has the lowest level and is shown as
/// black.
pub proof fn law_silence_is_black(samples: Seq<Binary32>)
    requires
        0 < samples.len() <= usize::MAX,
        forall|i: int| 0 <= i < samples.len() ==> (#[trigger] samples[i]).magnitude() == 0,
    ensures
        root_mean_square(samples) is Some,
        log_argument_of(root_mean_square(samples)->0) is None,
        color_of(decibel(log_argument_of(root_mean_square(samples)->0))) == (0u8, 0u8, 0u8),
{
    lemma_silent_root(samples);
    let r = with_sign(false, 0);
    assert(log_argument_of(r) is None) by {
        lemma_with_sign(false, 0);
        lemma_size_zero();
    }
    assert(decibel(None) == (Binary32 { bits: MIN_DB }));
    lemma_silence_is_black();
}

/// The root mean square of silence is 0.
proof fn lemma_silent_root(samples: Seq<Binary32>)
    requires
        0 < samples.len() <= usize::MAX,
        forall|i: int| 0 <= i < samples.len() ==> (#[trigger] samples[i]).magnitude() == 0,
    ensures
        root_mean_square(samples) == Some(with_sign(false, 0)),
{
    let n = samples.len() as int;
    lemma_silent_sum(samples);
    lemma_mean(0, n);
    lemma_count(n);
    let count = nearest(n * pow2(149), 1);
    let unit = pow2(149) as int;
    lemma_size_zero();
    lemma_size_increases(0, count);
    assert(size(0) * unit == 0 && size(count) * size(0) == 0) by (nonlinear_arith)
        requires
            size(0) == 0,
    ;
    lemma_nearest_zero(size(count));
    lemma_root(0);
}

proof fn lemma_silent_sum(samples: Seq<Binary32>)
    requires
        forall|i: int| 0 <= i < samples.len() ==> (#[trigger] samples[i]).magnitude() == 0,
    ensures
        square_sum(samples) == with_sign(false, 0),
    decreases samples.len(),
{
    if samples.len() > 0 {
        lemma_silent_sum(samples.drop_last());
        lemma_square(samples.last());
        lemma_plus(0, 0);
        lemma_pow2_pos(149);
        let unit = pow2(149) as int;
        lemma_size_zero();
        assert(size(0) * size(0) == 0 && unit * size(0) == 0) by (nonlinear_arith)
            requires
                size(0) == 0,
        ;
        lemma_nearest_zero(unit);
        lemma_nearest_zero(1);
    }
}

/// 16-bit samples are scaled exactly: nothing is lost, and full scale is never
/// exceeded.
pub proof fn law_signed_samples_scale_exactly(sample: i16)
    ensures
        signed_sample(sample).units() * 0x8000 == sample * pow2(149),
        signed_sample(sample).magnitude() <= ONE,
{
    let n: int = if sample < 0 {
        -(sample as int)
    } else {
        sample as int
    };
    let w = lemma_representable(n, 149);
    lemma_nearest_exact(n * pow2(149), 1, w);
    let r = lemma_scaled_sample(n, w);
    lemma_with_sign(sample < 0, w);
    lemma_with_sign(sample < 0, r);
    lemma_exact_sample(n, r);
}

/// Unsigned samples are scaled exactly, from their distance to 32768.
pub proof fn law_unsigned_samples_scale_exactly(sample: u16)
    ensures
        unsigned_sample(sample).units() * 0x8000 == (sample - 0x8000) * pow2(149),
        unsigned_sample(sample).magnitude() <= ONE,
{
    let unit = pow2(149) as int;
    lemma_pow2_pos(149);
    let w = lemma_representable(sample as int, 149);
    lemma_nearest_exact(sample * pow2(149), 1, w);
    lemma_with_sign(false, w);
    lemma_scale();
    let scale = Binary32 { bits: SAMPLE_SCALE };
    lemma_with_sign(true, SAMPLE_SCALE as int);
    let total = sample * unit - 0x8000 * unit;
    let n: int = if sample < 0x8000 {
        0x8000 - sample
    } else {
        sample - 0x8000
    };
    assert(total == (sample - 0x8000) * unit) by (nonlinear_arith)
        requires
            total == sample * unit - 0x8000 * unit,
    ;
    let d = lemma_representable(n, 149);
    lemma_nearest_exact(n * unit, 1, d);
    assert((total < 0) == (sample < 0x8000) && (total == 0) == (sample == 0x8000))
        by (nonlinear_arith)
        requires
            total == (sample - 0x8000) * unit,
            unit > 0,
    ;
    assert((0x8000 - sample) * unit == -((sample - 0x8000) * unit)) by (nonlinear_arith);
    if n == 0 {
        assert(n * unit == 0);
        lemma_nearest_zero(1);
    }
    assert(difference(whole(sample as int), scale) == with_sign(sample < 0x8000, d));
    let r = lemma_scaled_sample(n, d);
    lemma_with_sign(sample < 0x8000, d);
    lemma_with_sign(sample < 0x8000, r);
    lemma_exact_sample(n, r);
}

proof fn lemma_scale()
    ensures
        size(SAMPLE_SCALE as int) == 0x8000 * pow2(149),
{
    vstd::arithmetic::power2::lemma2_to64();
    lemma_size_of_split(141, 0x80_0000);
    lemma_pow2_adds(8, 141);
    let p = pow2(141) as int;
    assert(0x80_0000 * p == 0x8000 * (0x100 * p));
}

/// A whole number divided by 32768, as a pattern.
proof fn lemma_scaled_sample(n: int, w: int) -> (r: int)
    requires
        0 <= n <= 0x8000,
        0 <= w < INFINITY,
        size(w) == n * pow2(149),
    ensures
        0 <= r < INFINITY,
        size(r) == n * pow2(134),
        nearest(size(w) * pow2(149), size(SAMPLE_SCALE as int)) == r,
{
    let unit = pow2(149) as int;
    let p = pow2(134) as int;
    lemma_scale();
    lemma_pow2_pos(149);
    vstd::arithmetic::power2::lemma2_to64();
    lemma_pow2_adds(15, 134);
    let r = lemma_representable(n, 134);
    let den = size(SAMPLE_SCALE as int);
    assert(size(w) * unit == den * size(r)) by (nonlinear_arith)
        requires
            size(w) == n * unit,
            den == 0x8000 * unit,
            size(r) == n * p,
            unit == 0x8000 * p,
    ;
    lemma_nearest_exact(size(w) * unit, den, r);
    r
}

/// The value of a scaled sample.
proof fn lemma_exact_sample(n: int, r: int)
    requires
        0 <= n <= 0x8000,
        0 <= r < INFINITY,
        size(r) == n * pow2(134),
    ensures
        size(r) * 0x8000 == n * pow2(149),
        -size(r) * 0x8000 == -n * pow2(149),
        r <= ONE,
{
    let unit = pow2(149) as int;
    let p = pow2(134) as int;
    vstd::arithmetic::power2::lemma2_to64();
    lemma_pow2_adds(15, 134);
    lemma_pow2_pos(134);
    lemma_landmark_sizes();
    assert(size(r) * 0x8000 == n * unit && -size(r) * 0x8000 == -n * unit && size(r) <= unit)
        by (nonlinear_arith)
        requires
            size(r) == n * p,
            unit == 0x8000 * p,
            0 <= n <= 0x8000,
            p > 0,
    ;
    if r > ONE {
        lemma_size_increases(ONE as int, r);
    }
}

/// A block of signed 16-bit samples never exceeds full scale.
pub proof fn law_signed_blocks_within_full_scale(data: Seq<i16>)
    requires
        0 < data.len() <= usize::MAX,
    ensures
        root_mean_square(signed_samples(data)) is Some,
        !root_mean_square(signed_samples(data))->0.is_nan(),
        0 <= root_mean_square(signed_samples(data))->0.units(),
        root_mean_square(signed_samples(data))->0.units() <= (Binary32 { bits: ONE }).units(),
{
    let samples = signed_samples(data);
    assert forall|i: int| 0 <= i < samples.len() implies (#[trigger] samples[i]).magnitude()
        <= ONE by {
        law_signed_samples_scale_exactly(data[i]);
    }
    law_full_scale(samples);
}

/// A block of unsigned 16-bit samples never exceeds full scale.
pub proof fn law_unsigned_blocks_within_full_scale(data: Seq<u16>)
    requires
        0 < data.len() <= usize::MAX,
    ensures
        root_mean_square(unsigned_samples(data)) is Some,
        !root_mean_square(unsigned_samples(data))->0.is_nan(),
        0 <= root_mean_square(unsigned_samples(data))->0.units(),
        root_mean_square(unsigned_samples(data))->0.units() <= (Binary32 { bits: ONE }).units(),
{
    let samples = unsigned_samples(data);
    assert forall|i: int| 0 <= i < samples.len() implies (#[trigger] samples[i]).magnitude()
        <= ONE by {
        law_unsigned_samples_scale_exactly(data[i]);
    }
    law_full_scale(samples);
}

/// No level is below that of silence, whatever the logarithm, a number or not.
pub proof fn law_silence_is_lowest(log: Option<Binary32>)
    ensures
        decibel(None).units() <= decibel(log).units(),
{
    law_level_in_range(log);
}

/// A logarithm of 0 or more has the highest level and is shown as red.
pub proof fn law_loudest_is_red(log: Binary32)
    requires
        !log.is_nan(),
        log.units() >= 0,
    ensures
        decibel(Some(log)).units() == (Binary32 { bits: MAX_DB }).units(),
        decibel(Some(log)).units() == 0,
        color_of(decibel(Some(log))) == (255u8, 0u8, 0u8),
{
    lemma_size_zero();
    lemma_level_sizes();
    lemma_landmark_sizes();
    let zero = Binary32 { bits: MAX_DB };
    let low = Binary32 { bits: MIN_DB };
    let x = product(Binary32 { bits: DECIBELS_PER_DECADE }, log);
    lemma_scaled_by_twenty(log);
    lemma_order(log, zero);
    if log.negative() {
        assert(log.magnitude() == 0);
        lemma_scaled_zero();
    }
    lemma_with_sign(log.negative(), scaled(log.magnitude()));
    lemma_order(x, zero);
    lemma_order(x, low);
    lemma_order(decibel(Some(log)), zero);
    assert(!below(decibel(Some(log)), FLASH_THRESHOLD));
    assert(!below(decibel(Some(log)), MIN_DB));
}

/// The level of a block with the given root mean square, where `log` is the
/// logarithm that is taken.
pub open spec fn level_of(rms: Binary32, log: spec_fn(Binary32) -> Binary32) -> Binary32 {
    decibel(
        match log_argument_of(rms) {
            None => None,
            Some(argument) => Some(log(argument)),
        },
    )
}

/// A larger positive number has no smaller a logarithm.
pub open spec fn rises(log: spec_fn(Binary32) -> Binary32) -> bool {
    forall|x: Binary32, y: Binary32|
        #![trigger log(x), log(y)]
        !x.is_nan() && !y.is_nan() && 0 < x.units() <= y.units() ==> !log(x).is_nan() && !log(
            y,
        ).is_nan() && log(x).units() <= log(y).units()
}

/// A root mean square of at least 10^-10 is itself what the logarithm is taken
/// of.
proof fn lemma_log_argument(rms: Binary32)
    requires
        !rms.is_nan(),
        (Binary32 { bits: LEAST_LOG_ARGUMENT }).units() <= rms.units(),
    ensures
        log_argument_of(rms) == Some(rms),
        rms.units() > 0,
{
    lemma_size_zero();
    lemma_size_increases(0, LEAST_LOG_ARGUMENT as int);
}

/// A louder block has no lower a level, from silence to beyond full scale,
/// whatever logarithm is taken, as long as it rises.
pub proof fn law_louder_is_no_lower(
    a: Binary32,
    b: Binary32,
    log: spec_fn(Binary32) -> Binary32,
)
    requires
        !a.is_nan(),
        !b.is_nan(),
        a.units() <= b.units(),
        rises(log),
    ensures
        level_of(a, log).units() <= level_of(b, log).units(),
{
    lemma_size_zero();
    let least = Binary32 { bits: LEAST_LOG_ARGUMENT };
    lemma_log_argument(least);
    match (log_argument_of(a), log_argument_of(b)) {
        (Some(x), Some(y)) => {
            assert(0 < x.units() <= y.units());
            assert(!log(x).is_nan() && !log(y).is_nan() && log(x).units() <= log(y).units());
            law_level_follows_logarithm(log(x), log(y));
        },
        (None, Some(y)) => {
            law_silence_is_lowest(Some(log(y)));
        },
        _ => {},
    }
}

/// Silence is shown as black. Full scale and beyond, where the logarithm is 0 or
/// more, has the highest level and is shown as red.
pub proof fn law_ends_of_scale(rms: Binary32, log: spec_fn(Binary32) -> Binary32)
    requires
        !rms.is_nan(),
    ensures
        rms.units() <= 0 ==> color_of(level_of(rms, log)) == (0u8, 0u8, 0u8),
        rms.units() >= (Binary32 { bits: ONE }).units() && !log(rms).is_nan() && log(rms).units()
            >= 0 ==> level_of(rms, log).units() == 0 && color_of(level_of(rms, log)) == (
            255u8,
            0u8,
            0u8,
        ),
{
    if rms.units() <= 0 {
        lemma_silence_is_black();
    }
    if rms.units() >= (Binary32 { bits: ONE }).units() && !log(rms).is_nan() && log(rms).units()
        >= 0 {
        lemma_size_increases(LEAST_LOG_ARGUMENT as int, ONE as int);
        lemma_log_argument(rms);
        law_loudest_is_red(log(rms));
    }
}

/// Between -4 and 0 the level is 20 times the logarithm, up to 2^-18.
proof fn lemma_level_error(log: Binary32)
    requires
        !log.is_nan(),
        -4 * pow2(149) <= log.units() <= 0,
    ensures
        -(pow2(132) as int) <= 2 * (decibel(Some(log)).units() - 20 * log.units()) <= pow2(132),
        decibel(Some(log)) == product(Binary32 { bits: DECIBELS_PER_DECADE }, log),
{
    let unit = pow2(149) as int;
    let gap = pow2(132) as int;
    lemma_size_zero();
    lemma_level_sizes();
    lemma_landmark_sizes();
    let m = log.magnitude();
    let zero = Binary32 { bits: MAX_DB };
    let low = Binary32 { bits: MIN_DB };
    lemma_order(log, zero);
    lemma_size_order(0, m);
    assert(log.negative() || m == 0);
    assert(size(m) == -log.units());
    let four = lemma_representable(4, 149);
    if m > four {
        lemma_size_increases(four, m);
    }
    let twenty = DECIBELS_PER_DECADE as int;
    assert(size(twenty) == 20 * unit);
    lemma_scaled_by_twenty(log);
    lemma_scaled_order(m, four);
    let top = low.magnitude();
    assert(size(top) == 80 * unit);
    assert(size(twenty) * size(four) == unit * size(top)) by (nonlinear_arith)
        requires
            size(twenty) == 20 * unit,
            size(four) == 4 * unit,
            size(top) == 80 * unit,
    ;
    lemma_nearest_exact(size(twenty) * size(four), unit, top);
    let r = scaled(m);
    assert(r <= top);
    lemma_product(twenty, m);
    lemma_nearest_error(size(twenty) * size(m), unit, top);
    assert(exponent_of(top) == 132);
    assert(-gap <= 2 * (20 * size(m) - size(r)) <= gap) by (nonlinear_arith)
        requires
            2 * (size(twenty) * size(m) - unit * size(r)) <= unit * gap,
            2 * (unit * size(r) - size(twenty) * size(m)) <= unit * gap,
            size(twenty) == 20 * unit,
            unit > 0,
    ;
    lemma_with_sign(log.negative(), r);
    lemma_size_order(0, r);
    lemma_size_order(r, top);
    if m == 0 {
        lemma_scaled_zero();
    }
    assert(decibel(Some(log)).units() == -size(r));
}

/// Between -4 and 0 no number is closer to 20 times the logarithm than the level.
pub proof fn law_level_is_closest(log: Binary32, c: Binary32)
    requires
        !log.is_nan(),
        -4 * pow2(149) <= log.units() <= 0,
        !c.is_nan(),
    ensures
        apart(decibel(Some(log)).units(), 20 * log.units()) <= apart(c.units(), 20 * log.units()),
{
    let unit = pow2(149) as int;
    lemma_landmark_sizes();
    lemma_level_sizes();
    lemma_level_error(log);
    let twenty = Binary32 { bits: DECIBELS_PER_DECADE };
    assert(twenty.units() == 20 * unit);
    if log.is_infinite() {
        let four = lemma_representable(4, 149);
        lemma_size_increases(four, INFINITY as int);
        lemma_size_zero();
    }
    law_product_is_closest(twenty, log, c);
    let l = log.units();
    let d = decibel(Some(log)).units();
    let v = c.units();
    assert((20 * unit) * l == unit * (20 * l)) by (nonlinear_arith);
    assert(unit * d - unit * (20 * l) == unit * (d - 20 * l) && unit * v - unit * (20 * l) == unit
        * (v - 20 * l)) by (nonlinear_arith);
    let x = apart(d, 20 * l);
    let y = apart(v, 20 * l);
    assert(apart(unit * d, unit * (20 * l)) == unit * x) by (nonlinear_arith)
        requires
            unit > 0,
            x == apart(d, 20 * l),
    ;
    assert(apart(unit * v, unit * (20 * l)) == unit * y) by (nonlinear_arith)
        requires
            unit > 0,
            y == apart(v, 20 * l),
    ;
    assert(x <= y) by (nonlinear_arith)
        requires
            unit * x <= unit * y,
            unit > 0,
    ;
}

/// Silence is at -80 decibels, and so is a logarithm that is not a number.
pub proof fn law_silence_is_eighty_below(log: Binary32)
    ensures
        decibel(None).units() == -80 * pow2(149),
        !decibel(None).is_nan(),
        log.is_nan() ==> decibel(Some(log)).units() == -80 * pow2(149),
{
    lemma_level_sizes();
    lemma_order(Binary32 { bits: MIN_DB }, Binary32 { bits: MAX_DB });
    lemma_order(Binary32 { bits: MAX_DB }, Binary32 { bits: MIN_DB });
}

/// A logarithm is taken unless the root mean square is a number of 0 or less. It
/// is taken of the root mean square, or of 10^-10 where that is more or where the
/// root mean square is not a number.
pub proof fn law_what_the_logarithm_is_taken_of(rms: Binary32)
    ensures
        ({
            let least = Binary32 { bits: LEAST_LOG_ARGUMENT };
            let argument = log_argument_of(rms);
            &&& argument is None <==> !rms.is_nan() && rms.units() <= 0
            &&& rms.is_nan() ==> argument == Some(least)
            &&& !rms.is_nan() && 0 < rms.units() <= least.units() ==> argument is Some
                && argument->0.units() == least.units()
            &&& !rms.is_nan() && least.units() <= rms.units() ==> argument == Some(rms)
            &&& argument is Some ==> !argument->0.is_nan() && argument->0.units() > 0
        }),
{
    lemma_size_zero();
    lemma_size_increases(0, LEAST_LOG_ARGUMENT as int);
}

/// A number of units held between -4 and 0.
pub open spec fn in_four_decades(units: int) -> int {
    if units < -4 * pow2(149) {
        -4 * pow2(149)
    } else if units > 0 {
        0
    } else {
        units
    }
}

/// The level is 20 times the logarithm, held between -80 and 0, up to 2^-18 for
/// rounding.
pub proof fn law_level_is_twenty_logarithms(log: Binary32)
    requires
        !log.is_nan(),
    ensures
        -(pow2(132) as int) <= 2 * (decibel(Some(log)).units() - 20 * in_four_decades(
            log.units(),
        )) <= pow2(132),
{
    lemma_landmark_sizes();
    lemma_pow2_pos(132);
    if log.units() > 0 {
        law_loudest_is_red(log);
    } else if log.units() < -4 * pow2(149) {
        let m = lemma_representable(4, 149);
        let four = with_sign(true, m);
        lemma_with_sign(true, m);
        lemma_level_error(four);
        law_level_follows_logarithm(log, four);
        law_level_in_range(Some(log));
        lemma_level_sizes();
    } else {
        lemma_level_error(log);
    }
}

/// A louder block has no lower a level, up to 20 times `off` and 2^-17 for
/// rounding, where the logarithm rises but for errors of at most `off` units of
/// 2^-149.
pub proof fn law_louder_is_hardly_lower(
    a: Binary32,
    b: Binary32,
    log: spec_fn(Binary32) -> Binary32,
    off: int,
)
    requires
        !a.is_nan(),
        !b.is_nan(),
        a.units() <= b.units(),
        off >= 0,
        forall|x: Binary32, y: Binary32|
            #![trigger log(x), log(y)]
            !x.is_nan() && !y.is_nan() && 0 < x.units() <= y.units() ==> !log(x).is_nan() && !log(
                y,
            ).is_nan() && log(x).units() <= log(y).units() + off,
    ensures
        level_of(a, log).units() <= level_of(b, log).units() + 20 * off + pow2(132),
{
    lemma_size_zero();
    lemma_pow2_pos(132);
    let least = Binary32 { bits: LEAST_LOG_ARGUMENT };
    lemma_log_argument(least);
    match (log_argument_of(a), log_argument_of(b)) {
        (Some(x), Some(y)) => {
            assert(0 < x.units() <= y.units());
            assert(log(x).units() <= log(y).units() + off);
            law_level_is_twenty_logarithms(log(x));
            law_level_is_twenty_logarithms(log(y));
        },
        (None, Some(y)) => {
            law_silence_is_lowest(Some(log(y)));
        },
        _ => {},
    }
}

/// One decade is 20 decibels: where two logarithms between -4 and 0 are 1 apart,
/// up to `off` units of 2^-149, their levels are 20 apart, up to 20 times as much
/// and 2^-17 for rounding.
pub proof fn law_decade_is_twenty(a: Binary32, b: Binary32, off: int)
    requires
        !a.is_nan(),
        !b.is_nan(),
        -4 * pow2(149) <= a.units() <= 0,
        -4 * pow2(149) <= b.units() <= 0,
        -off <= b.units() - a.units() - pow2(149) <= off,
    ensures
        -(20 * off + pow2(132)) <= decibel(Some(b)).units() - decibel(Some(a)).units() - 20
            * pow2(149) <= 20 * off + pow2(132),
{
    lemma_level_error(a);
    lemma_level_error(b);
}

/// Ten times the amplitude is 20 decibels more, where the logarithms of both lie
/// between -4 and 0 and are 1 apart, up to `off` units of 2^-149.
pub proof fn law_tenfold_is_twenty(rms: Binary32, log: spec_fn(Binary32) -> Binary32, off: int)
    requires
        (Binary32 { bits: LEAST_LOG_ARGUMENT }).units() <= rms.units(),
        rms.units() <= (Binary32 { bits: ONE }).units(),
        !log(rms).is_nan(),
        -4 * pow2(149) <= log(rms).units() <= 0,
        ({
            let tenfold = product(Binary32 { bits: TEN }, rms);
            &&& !log(tenfold).is_nan()
            &&& -4 * pow2(149) <= log(tenfold).units() <= 0
            &&& -off <= log(tenfold).units() - log(rms).units() - pow2(149) <= off
        }),
    ensures
        ({
            let tenfold = product(Binary32 { bits: TEN }, rms);
            -(20 * off + pow2(132)) <= level_of(tenfold, log).units() - level_of(rms, log).units()
                - 20 * pow2(149) <= 20 * off + pow2(132)
        }),
{
    let unit = pow2(149) as int;
    let least = Binary32 { bits: LEAST_LOG_ARGUMENT };
    let tenfold = product(Binary32 { bits: TEN }, rms);
    lemma_landmark_sizes();
    lemma_log_argument(least);
    lemma_order(rms, Binary32 { bits: ONE });
    lemma_order(Binary32 { bits: ONE }, rms);
    lemma_order(least, rms);
    lemma_order(rms, least);
    let m = rms.magnitude();
    assert(rms == with_sign(false, m));
    lemma_product(TEN as int, m);
    lemma_size_increases(ONE as int, TEN as int);
    lemma_size_order(0, m);
    assert(0 <= size(m) * unit && size(m) * unit * unit <= size(TEN as int) * size(m) * unit)
        by (nonlinear_arith)
        requires
            0 <= size(m),
            0 < unit <= size(TEN as int),
    ;
    lemma_nearest_order(size(m) * unit, unit, size(TEN as int) * size(m), unit);
    assert(size(m) * unit == unit * size(m)) by (nonlinear_arith);
    lemma_nearest_exact(size(m) * unit, unit, m);
    let t = nearest(size(TEN as int) * size(m), unit);
    lemma_with_sign(false, t);
    lemma_size_order(m, t);
    lemma_log_argument(rms);
    lemma_log_argument(tenfold);
    law_decade_is_twenty(log(rms), log(tenfold), off);
}

} // verus!

//! From a level in decibels to the colour that shows it.
//!
//! Silence is black. Quiet sounds fade in green, medium ones turn to yellow and
//! loud ones to red. From one frame to the next the colour on display moves
//! part of the way to the colour of the level.
use crate::binary32::{
    byte, difference, larger, less, nearest, product, quotient, smaller, sum, whole, with_sign,
    Binary32,
};
use crate::level::{MIN_DB, ZERO};
use crate::order::{
    lemma_cut_order, lemma_difference, lemma_nearest_error, lemma_nearest_exact,
    lemma_nearest_order, lemma_nearest_zero,
    lemma_order, lemma_product, lemma_quotient, lemma_representable, lemma_size_order,
    lemma_with_sign, place,
};
use crate::rounding::{
    exponent_of, lemma_size_increases, lemma_size_of_split, lemma_size_zero, size, INFINITY,
};
use vstd::arithmetic::power2::{lemma_pow2_adds, lemma_pow2_pos, lemma_pow2_unfold, pow2};
use vstd::prelude::*;

verus! {

/// -65: green is full from here on.
pub const GREEN_FULL: u32 = 0xC282_0000;

/// -55: red starts to come in.
pub const YELLOW_START: u32 = 0xC25C_0000;

/// -35: red is full from here on.
pub const YELLOW_MAX: u32 = 0xC20C_0000;

/// -35: green starts to fade out.
pub const RED_START: u32 = 0xC20C_0000;

/// -20: the level of the flashing sequence.
pub const FLASH_THRESHOLD: u32 = 0xC1A0_0000;

/// 0.85, the share of the old colour in the new one.
pub const COLOR_SMOOTHING: u32 = 0x3F59_999A;

/// 1.
pub const ONE: u32 = 0x3F80_0000;

/// 255, full brightness.
pub const FULL: u32 = 0x437F_0000;

/// The pattern of minus 0.
const SIGNED_ZERO: u32 = 0x8000_0000;

/// The pattern of minus infinity.
const SIGNED_INFINITY: u32 = 0xFF80_0000;

/// How far `db` is on the way from `from` to `to`.
pub open spec fn progress(db: Binary32, from: u32, to: u32) -> Binary32 {
    quotient(
        difference(db, Binary32 { bits: from }),
        difference(Binary32 { bits: to }, Binary32 { bits: from }),
    )
}

/// A channel that comes in between two levels.
pub open spec fn rising(db: Binary32, from: u32, to: u32) -> u8 {
    byte(smaller(product(progress(db, from, to), Binary32 { bits: FULL }), Binary32 { bits: FULL }))
}

/// A channel that goes out between two levels.
pub open spec fn falling(db: Binary32, from: u32, to: u32) -> u8 {
    byte(
        larger(
            product(
                difference(Binary32 { bits: ONE }, progress(db, from, to)),
                Binary32 { bits: FULL },
            ),
            Binary32 { bits: ZERO },
        ),
    )
}

/// `db` lies below the level with the given pattern.
pub open spec fn below(db: Binary32, level: u32) -> bool {
    less(db, Binary32 { bits: level })
}

/// The colour of a level, as red, green and blue.
pub open spec fn color_of(db: Binary32) -> (u8, u8, u8) {
    if below(db, MIN_DB) {
        (0, 0, 0)
    } else if below(db, GREEN_FULL) {
        (0, rising(db, MIN_DB, GREEN_FULL), 0)
    } else if below(db, YELLOW_START) {
        (0, 255, 0)
    } else if below(db, YELLOW_MAX) {
        (rising(db, YELLOW_START, YELLOW_MAX), 255, 0)
    } else if below(db, FLASH_THRESHOLD) {
        (255, falling(db, RED_START, FLASH_THRESHOLD), 0)
    } else {
        (255, 0, 0)
    }
}

/// A channel after one step from `current` towards `target`.
pub open spec fn blend(current: u8, target: u8) -> u8 {
    byte(
        sum(
            product(whole(current as int), Binary32 { bits: COLOR_SMOOTHING }),
            product(
                whole(target as int),
                difference(Binary32 { bits: ONE }, Binary32 { bits: COLOR_SMOOTHING }),
            ),
        ),
    )
}

/// A colour after one step from `current` towards `target`.
pub open spec fn blend_color(current: (u8, u8, u8), target: (u8, u8, u8)) -> (u8, u8, u8) {
    (blend(current.0, target.0), blend(current.1, target.1), blend(current.2, target.2))
}

fn progress_between(db: Binary32, from: u32, to: u32) -> (r: Binary32)
    ensures
        r == progress(db, from, to),
{
    let start: Binary32 = Binary32::from_bits(from);
    db.minus(start).divided_by(Binary32::from_bits(to).minus(start))
}

fn rising_channel(db: Binary32, from: u32, to: u32) -> (r: u8)
    ensures
        r == rising(db, from, to),
{
    let full: Binary32 = Binary32::from_bits(FULL);
    progress_between(db, from, to).times(full).min_of(full).to_byte()
}

fn falling_channel(db: Binary32, from: u32, to: u32) -> (r: u8)
    ensures
        r == falling(db, from, to),
{
    let rest: Binary32 = Binary32::from_bits(ONE).minus(progress_between(db, from, to));
    rest.times(Binary32::from_bits(FULL)).max_of(Binary32::from_bits(ZERO)).to_byte()
}

/// The colour of a level, as red, green and blue.
pub fn db_to_color(db: Binary32) -> (color: (u8, u8, u8))
    ensures
        color == color_of(db),
{
    if db.less_than(Binary32::from_bits(MIN_DB)) {
        return (0, 0, 0);
    }
    if db.less_than(Binary32::from_bits(GREEN_FULL)) {
        return (0, rising_channel(db, MIN_DB, GREEN_FULL), 0);
    }
    if db.less_than(Binary32::from_bits(YELLOW_START)) {
        return (0, 255, 0);
    }
    if db.less_than(Binary32::from_bits(YELLOW_MAX)) {
        return (rising_channel(db, YELLOW_START, YELLOW_MAX), 255, 0);
    }
    if db.less_than(Binary32::from_bits(FLASH_THRESHOLD)) {
        return (255, falling_channel(db, RED_START, FLASH_THRESHOLD), 0);
    }
    (255, 0, 0)
}

fn blend_channel(current: u8, target: u8) -> (r: u8)
    ensures
        r == blend(current, target),
{
    let keep: Binary32 = Binary32::from_bits(COLOR_SMOOTHING);
    let take: Binary32 = Binary32::from_bits(ONE).minus(keep);
    let old_part: Binary32 = Binary32::from_usize(current as usize).times(keep);
    let new_part: Binary32 = Binary32::from_usize(target as usize).times(take);
    old_part.plus(new_part).to_byte()
}

/// The colour to display after `current` where the level calls for `target`.
pub fn smooth_color(current: (u8, u8, u8), target: (u8, u8, u8)) -> (color: (u8, u8, u8))
    ensures
        color == blend_color(current, target),
{
    (
        blend_channel(current.0, target.0),
        blend_channel(current.1, target.1),
        blend_channel(current.2, target.2),
    )
}

/// The pattern of a share of full brightness.
spec fn scaled_pattern(p: int) -> int {
    nearest(size(p) * size(FULL as int), pow2(149) as int)
}

/// The sizes of 1 and of 255.
pub proof fn lemma_landmark_sizes()
    ensures
        size(ONE as int) == pow2(149),
        size(FULL as int) == 255 * pow2(149),
        pow2(149) > 0,
{
    vstd::arithmetic::power2::lemma2_to64();
    lemma_pow2_pos(149);
    lemma_size_of_split(126, 0x80_0000);
    lemma_pow2_adds(23, 126);
    lemma_size_of_split(133, 0xFF_0000);
    lemma_pow2_adds(16, 133);
    let p = pow2(133) as int;
    assert(0xFF_0000 * p == 255 * (0x1_0000 * p));
}

/// A share of at most 1 scales to at most full brightness, and a larger share
/// to no less.
proof fn lemma_scaled(p: int, q: int)
    requires
        0 <= p <= q <= ONE,
    ensures
        0 <= scaled_pattern(p) <= scaled_pattern(q) <= FULL,
        product(with_sign(false, p), Binary32 { bits: FULL }) == with_sign(
            false,
            scaled_pattern(p),
        ),
{
    lemma_landmark_sizes();
    let unit = pow2(149) as int;
    let full = size(FULL as int);
    lemma_product(p, FULL as int);
    lemma_product(q, FULL as int);
    assert(Binary32 { bits: FULL } == with_sign(false, FULL as int));
    lemma_size_order(p, q);
    lemma_size_order(q, ONE as int);
    assert(size(p) * full * unit <= size(q) * full * unit) by (nonlinear_arith)
        requires
            size(p) <= size(q),
            full >= 0,
            unit > 0,
    ;
    lemma_nearest_order(size(p) * full, unit, size(q) * full, unit);
    lemma_nearest_exact(unit * full, unit, FULL as int);
    assert(size(q) * full * unit <= (unit * full) * unit) by (nonlinear_arith)
        requires
            size(q) <= unit,
            full >= 0,
            unit > 0,
    ;
    assert(unit * full >= 0) by (nonlinear_arith)
        requires
            unit > 0,
            full >= 0,
    ;
    lemma_nearest_order(size(q) * full, unit, unit * full, unit);
}

/// The progress between two levels lies between 0 and 1 and grows with the
/// level.
proof fn lemma_progress(a: Binary32, b: Binary32, from: u32, to: u32) -> (r: (int, int))
    requires
        SIGNED_ZERO < from < SIGNED_INFINITY,
        SIGNED_ZERO < to < from,
        (Binary32 { bits: from }).units() <= a.units(),
        a.units() <= b.units(),
        b.units() <= (Binary32 { bits: to }).units(),
        a.magnitude() < INFINITY,
        b.magnitude() < INFINITY,
    ensures
        0 <= r.0 <= r.1 <= ONE,
        progress(a, from, to) == with_sign(false, r.0),
        progress(b, from, to) == with_sign(false, r.1),
        a.units() == (Binary32 { bits: from }).units() ==> r.0 == 0,
        b.units() == (Binary32 { bits: to }).units() ==> r.1 == ONE,
{
    let start = Binary32 { bits: from };
    let end = Binary32 { bits: to };
    lemma_landmark_sizes();
    let unit = pow2(149) as int;
    lemma_size_increases(end.magnitude(), start.magnitude());
    lemma_size_increases(0, end.magnitude());
    // The three distances, in units.
    let u = a.units() - start.units();
    let v = b.units() - start.units();
    let w = end.units() - start.units();
    lemma_difference(a, start);
    lemma_difference(b, start);
    lemma_difference(end, start);
    lemma_nearest_order(u, 1, v, 1);
    lemma_nearest_order(v, 1, w, 1);
    lemma_nearest_exact(size(start.magnitude()), 1, start.magnitude());
    lemma_nearest_order(w, 1, size(start.magnitude()), 1);
    assert(size(1) == 1) by {
        lemma_size_of_split(0, 1);
        vstd::arithmetic::power2::lemma2_to64();
    }
    lemma_nearest_exact(1, 1, 1);
    lemma_nearest_order(1, 1, w, 1);
    let x = nearest(u, 1);
    let y = nearest(v, 1);
    let d = nearest(w, 1);
    assert(0 <= x <= y <= d && 0 < d < INFINITY);
    lemma_quotient(x, d);
    lemma_quotient(y, d);
    lemma_size_order(x, y);
    lemma_size_order(y, d);
    let p = nearest(size(x) * unit, size(d));
    let q = nearest(size(y) * unit, size(d));
    assert(size(x) * unit * size(d) <= size(y) * unit * size(d)) by (nonlinear_arith)
        requires
            size(x) <= size(y),
            unit > 0,
            size(d) > 0,
    ;
    lemma_nearest_order(size(x) * unit, size(d), size(y) * unit, size(d));
    assert(size(y) * unit * size(d) <= (size(d) * unit) * size(d)) by (nonlinear_arith)
        requires
            size(y) <= size(d),
            unit > 0,
            size(d) > 0,
    ;
    assert(size(d) * unit >= 0) by (nonlinear_arith)
        requires
            size(d) > 0,
            unit > 0,
    ;
    lemma_nearest_order(size(y) * unit, size(d), size(d) * unit, size(d));
    lemma_nearest_exact(size(d) * unit, size(d), ONE as int);
    if u == 0 {
        lemma_nearest_zero(1);
        lemma_size_zero();
        assert(size(x) * unit == 0) by (nonlinear_arith)
            requires
                size(x) == 0,
        ;
        assert(size(d) * size(0) == 0) by (nonlinear_arith)
            requires
                size(0) == 0,
        ;
        lemma_nearest_zero(size(d));
    }
    assert(progress(a, from, to) == with_sign(false, p));
    assert(progress(b, from, to) == with_sign(false, q));
    (p, q)
}

/// The brightness of a share of at most 1: neither bound changes it, and it
/// grows with the share, from 0 to 255.
proof fn lemma_brightness(p: int, q: int)
    requires
        0 <= p <= q <= ONE,
    ensures
        ({
            let x = with_sign(false, scaled_pattern(p));
            let y = with_sign(false, scaled_pattern(q));
            &&& product(with_sign(false, p), Binary32 { bits: FULL }) == x
            &&& smaller(x, Binary32 { bits: FULL }) == x
            &&& larger(x, Binary32 { bits: ZERO }) == x
            &&& byte(x) <= byte(y)
            &&& p == 0 ==> byte(x) == 0
            &&& p == ONE ==> byte(x) == 255
        }),
{
    let x = with_sign(false, scaled_pattern(p));
    let y = with_sign(false, scaled_pattern(q));
    lemma_scaled(p, q);
    lemma_with_sign(false, scaled_pattern(p));
    lemma_with_sign(false, scaled_pattern(q));
    lemma_order(Binary32 { bits: FULL }, x);
    lemma_order(x, Binary32 { bits: ZERO });
    lemma_landmark_sizes();
    let unit = pow2(149) as int;
    lemma_cut_order(scaled_pattern(p), scaled_pattern(q));
    lemma_cut_order(scaled_pattern(q), FULL as int);
    assert(size(FULL as int) / unit == 255) by {
        vstd::arithmetic::div_mod::lemma_div_by_multiple(255, unit);
    }
    if p == 0 {
        lemma_size_zero();
        assert(size(p) * size(FULL as int) == 0 && unit * size(0) == 0) by (nonlinear_arith)
            requires
                size(p) == 0,
                size(0) == 0,
        ;
        lemma_nearest_zero(unit);
        assert(0int / unit == 0) by {
            vstd::arithmetic::div_mod::lemma_div_basics(unit);
        }
    }
    if p == ONE {
        lemma_nearest_exact(unit * size(FULL as int), unit, FULL as int);
    }
}

/// A channel that comes in grows with the level.
proof fn lemma_rising(a: Binary32, b: Binary32, from: u32, to: u32)
    requires
        SIGNED_ZERO < from < SIGNED_INFINITY,
        SIGNED_ZERO < to < from,
        (Binary32 { bits: from }).units() <= a.units(),
        a.units() <= b.units(),
        b.units() <= (Binary32 { bits: to }).units(),
        a.magnitude() < INFINITY,
        b.magnitude() < INFINITY,
    ensures
        rising(a, from, to) <= rising(b, from, to),
        a.units() == (Binary32 { bits: from }).units() ==> rising(a, from, to) == 0,
        b.units() == (Binary32 { bits: to }).units() ==> rising(b, from, to) == 255,
{
    let (p, q) = lemma_progress(a, b, from, to);
    lemma_brightness(p, q);
    lemma_brightness(q, q);
}

/// The larger the share, the less is left of 1.
proof fn lemma_rest(p: int, q: int) -> (r: (int, int))
    requires
        0 <= p <= q <= ONE,
    ensures
        0 <= r.1 <= r.0 <= ONE,
        difference(Binary32 { bits: ONE }, with_sign(false, p)) == with_sign(false, r.0),
        difference(Binary32 { bits: ONE }, with_sign(false, q)) == with_sign(false, r.1),
        p == 0 ==> r.0 == ONE,
        q == ONE ==> r.1 == 0,
{
    let one = Binary32 { bits: ONE };
    lemma_landmark_sizes();
    let unit = pow2(149) as int;
    lemma_with_sign(false, p);
    lemma_with_sign(false, q);
    lemma_size_order(p, q);
    lemma_size_order(q, ONE as int);
    lemma_difference(one, with_sign(false, p));
    lemma_difference(one, with_sign(false, q));
    lemma_nearest_order(unit - size(q), 1, unit - size(p), 1);
    lemma_nearest_exact(unit, 1, ONE as int);
    lemma_nearest_order(unit - size(p), 1, unit, 1);
    if p == 0 {
        lemma_size_zero();
    }
    if q == ONE {
        lemma_nearest_zero(1);
    }
    (nearest(unit - size(p), 1), nearest(unit - size(q), 1))
}

/// A channel that goes out shrinks as the level grows.
proof fn lemma_falling(a: Binary32, b: Binary32, from: u32, to: u32)
    requires
        SIGNED_ZERO < from < SIGNED_INFINITY,
        SIGNED_ZERO < to < from,
        (Binary32 { bits: from }).units() <= a.units(),
        a.units() <= b.units(),
        b.units() <= (Binary32 { bits: to }).units(),
        a.magnitude() < INFINITY,
        b.magnitude() < INFINITY,
    ensures
        falling(a, from, to) >= falling(b, from, to),
        a.units() == (Binary32 { bits: from }).units() ==> falling(a, from, to) == 255,
        b.units() == (Binary32 { bits: to }).units() ==> falling(b, from, to) == 0,
{
    let (p, q) = lemma_progress(a, b, from, to);
    let (x, y) = lemma_rest(p, q);
    lemma_brightness(y, x);
    lemma_brightness(x, x);
}

/// The louder the sound, the more red. Up to full yellow, the louder the more
/// green, and from full green on, the louder the less green. There is never any
/// blue.
pub proof fn law_color_follows_level(a: Binary32, b: Binary32)
    requires
        !a.is_nan(),
        !b.is_nan(),
        a.units() <= b.units(),
    ensures
        color_of(a).0 <= color_of(b).0,
        b.units() <= (Binary32 { bits: YELLOW_MAX }).units() ==> color_of(a).1 <= color_of(b).1,
        !below(a, YELLOW_START) ==> color_of(a).1 >= color_of(b).1,
        color_of(a).2 == 0,
{
    lemma_order(a, b);
    lemma_order(b, a);
    lemma_bounds(a);
    lemma_bounds(b);
    if !below(a, MIN_DB) && below(b, GREEN_FULL) {
        lemma_rising(a, b, MIN_DB, GREEN_FULL);
    }
    if !below(a, YELLOW_START) && below(b, YELLOW_MAX) {
        lemma_rising(a, b, YELLOW_START, YELLOW_MAX);
    }
    if !below(a, RED_START) && below(b, FLASH_THRESHOLD) {
        lemma_falling(a, b, RED_START, FLASH_THRESHOLD);
    }
    lemma_level_sizes();
    lemma_landmark_sizes();
    if b.units() == (Binary32 { bits: RED_START }).units() {
        lemma_falling(b, b, RED_START, FLASH_THRESHOLD);
    }
}

/// What each level is, in units.
pub proof fn lemma_level_sizes()
    ensures
        (Binary32 { bits: MIN_DB }).units() == -80 * pow2(149),
        (Binary32 { bits: GREEN_FULL }).units() == -65 * pow2(149),
        (Binary32 { bits: YELLOW_START }).units() == -55 * pow2(149),
        (Binary32 { bits: YELLOW_MAX }).units() == -35 * pow2(149),
        (Binary32 { bits: FLASH_THRESHOLD }).units() == -20 * pow2(149),
{
    vstd::arithmetic::power2::lemma2_to64();
    lemma_pow2_adds(17, 132);
    lemma_pow2_adds(18, 131);
    lemma_pow2_adds(19, 130);
    lemma_size_of_split(132, 0xA0_0000);
    lemma_size_of_split(132, 0x82_0000);
    lemma_size_of_split(131, 0xDC_0000);
    lemma_size_of_split(131, 0x8C_0000);
    lemma_size_of_split(130, 0xA0_0000);
}

/// The progress over a way of `k` decibels, 15 or 20, is the part of the way
/// behind it, up to 36 parts in 2^24.
proof fn lemma_progress_error(a: Binary32, from: u32, to: u32, k: int) -> (p: int)
    requires
        SIGNED_ZERO < from < SIGNED_INFINITY,
        SIGNED_ZERO < to < from,
        (Binary32 { bits: from }).units() <= a.units(),
        a.units() <= (Binary32 { bits: to }).units(),
        a.magnitude() < INFINITY,
        k == 15 || k == 20,
        (Binary32 { bits: to }).units() - (Binary32 { bits: from }).units() == k * pow2(149),
    ensures
        0 <= p <= ONE,
        progress(a, from, to) == with_sign(false, p),
        -36 * pow2(125) <= k * size(p) - (a.units() - (Binary32 { bits: from }).units()) <= 36
            * pow2(125),
{
    let start = Binary32 { bits: from };
    let end = Binary32 { bits: to };
    let unit = pow2(149) as int;
    let e = pow2(125) as int;
    vstd::arithmetic::power2::lemma2_to64();
    lemma_landmark_sizes();
    lemma_pow2_adds(24, 125);
    lemma_pow2_adds(4, 126);
    lemma_pow2_unfold(126);
    let u = a.units() - start.units();
    let w = end.units() - start.units();
    lemma_size_increases(end.magnitude(), start.magnitude());
    lemma_size_increases(0, end.magnitude());
    lemma_difference(a, start);
    lemma_difference(end, start);
    let d = lemma_representable(k, 149);
    lemma_nearest_exact(w, 1, d);
    let top = FLASH_THRESHOLD as int - SIGNED_ZERO as int;
    assert(size(top) == 20 * unit) by {
        lemma_level_sizes();
    }
    lemma_nearest_exact(20 * unit, 1, top);
    lemma_nearest_order(u, 1, 20 * unit, 1);
    lemma_nearest_error(u, 1, top);
    let x = nearest(u, 1);
    lemma_size_zero();
    assert(d > 0);
    lemma_quotient(x, d);
    let p = nearest(size(x) * unit, size(d));
    let (q, _) = lemma_progress(a, a, from, to);
    lemma_with_sign(false, p);
    lemma_with_sign(false, q);
    assert(p == q);
    lemma_nearest_error(size(x) * unit, size(d), ONE as int);
    assert(exponent_of(ONE as int) == 126);
    assert(-(k * e) <= k * size(p) - size(x) <= k * e) by (nonlinear_arith)
        requires
            2 * (size(x) * unit - size(d) * size(p)) <= size(d) * (2 * e),
            2 * (size(d) * size(p) - size(x) * unit) <= size(d) * (2 * e),
            size(d) == k * unit,
            unit > 0,
    ;
    p
}

/// A share of full brightness, before the digits after the point are dropped,
/// is 255 times the share, up to 128 parts in 2^24.
proof fn lemma_brightness_error(p: int) -> (t: int)
    requires
        0 <= p <= ONE,
    ensures
        0 <= t <= 255 * pow2(149),
        byte(with_sign(false, scaled_pattern(p))) == t / pow2(149) as int,
        -128 * pow2(125) <= t - 255 * size(p) <= 128 * pow2(125),
{
    let unit = pow2(149) as int;
    let e = pow2(125) as int;
    let r = scaled_pattern(p);
    lemma_landmark_sizes();
    lemma_scaled(p, p);
    lemma_product(p, FULL as int);
    lemma_with_sign(false, r);
    lemma_size_order(r, FULL as int);
    lemma_cut_order(r, FULL as int);
    vstd::arithmetic::div_mod::lemma_div_by_multiple(255, unit);
    lemma_nearest_error(size(p) * size(FULL as int), unit, FULL as int);
    assert(exponent_of(FULL as int) == 133);
    vstd::arithmetic::power2::lemma2_to64();
    lemma_pow2_adds(8, 125);
    assert(-128 * e <= size(r) - 255 * size(p) <= 128 * e) by (nonlinear_arith)
        requires
            2 * (size(p) * (255 * unit) - unit * size(r)) <= unit * (256 * e),
            2 * (unit * size(r) - size(p) * (255 * unit)) <= unit * (256 * e),
            unit > 0,
    ;
    size(r)
}

/// Two values less than 1 apart have whole parts at most 1 apart.
proof fn lemma_close_cuts(s: int, t: int, unit: int)
    requires
        unit > 0,
        -unit < s - t < unit,
    ensures
        -1 <= s / unit - t / unit <= 1,
{
    vstd::arithmetic::div_mod::lemma_fundamental_div_mod(s, unit);
    vstd::arithmetic::div_mod::lemma_fundamental_div_mod(t, unit);
    let x = s / unit;
    let y = t / unit;
    assert(-1 <= x - y <= 1) by (nonlinear_arith)
        requires
            s == unit * x + s % unit,
            t == unit * y + t % unit,
            0 <= s % unit < unit,
            0 <= t % unit < unit,
            -unit < s - t < unit,
    ;
}

/// The channel is 255 times the part that `way` is of `k` decibels, cut to a
/// whole number, where the rounding of that may be off by a thousandth.
pub open spec fn on_line(channel: u8, way: int, k: int) -> bool {
    &&& 1000 * (k * channel) * pow2(149) <= 255_000 * way + k * pow2(149)
    &&& 255_000 * way <= (1000 * (k * channel + k) + k) * pow2(149)
}

/// The colour of every level: black below -80; then green comes in evenly, and is
/// full from -65 on; from -55 on red comes in evenly, and is full from -35 on;
/// from there green goes out evenly, and is out from -20 on. What is not a number
/// is shown as red.
pub proof fn law_colors_of_levels(db: Binary32)
    ensures
        db.is_nan() ==> color_of(db) == (255u8, 0u8, 0u8),
        !db.is_nan() ==> {
            let x = db.units();
            let unit = pow2(149) as int;
            let (red, green, blue) = color_of(db);
            &&& blue == 0
            &&& x < -80 * unit ==> red == 0 && green == 0
            &&& -80 * unit <= x < -65 * unit ==> red == 0 && on_line(green, x + 80 * unit, 15)
            &&& -65 * unit <= x < -55 * unit ==> red == 0 && green == 255
            &&& -55 * unit <= x < -35 * unit ==> on_line(red, x + 55 * unit, 20) && green == 255
            &&& -35 * unit <= x < -20 * unit ==> red == 255 && on_line(green, -20 * unit - x, 15)
            &&& -20 * unit <= x ==> red == 255 && green == 0
        },
{
    lemma_level_sizes();
    lemma_landmark_sizes();
    if !db.is_nan() {
        lemma_bounds(db);
        if !below(db, MIN_DB) && below(db, GREEN_FULL) {
            lemma_on_line(db, MIN_DB, GREEN_FULL, 15);
        }
        if !below(db, YELLOW_START) && below(db, YELLOW_MAX) {
            lemma_on_line(db, YELLOW_START, YELLOW_MAX, 20);
        }
        if !below(db, RED_START) && below(db, FLASH_THRESHOLD) {
            lemma_on_line(db, RED_START, FLASH_THRESHOLD, 15);
        }
    }
}

/// A channel that comes in or goes out is on the line between its ends.
proof fn lemma_on_line(a: Binary32, from: u32, to: u32, k: int)
    requires
        SIGNED_ZERO < from < SIGNED_INFINITY,
        SIGNED_ZERO < to < from,
        (Binary32 { bits: from }).units() <= a.units(),
        a.units() <= (Binary32 { bits: to }).units(),
        a.magnitude() < INFINITY,
        k == 15 || k == 20,
        (Binary32 { bits: to }).units() - (Binary32 { bits: from }).units() == k * pow2(149),
    ensures
        on_line(rising(a, from, to), a.units() - (Binary32 { bits: from }).units(), k),
        on_line(falling(a, from, to), (Binary32 { bits: to }).units() - a.units(), k),
{
    let unit = pow2(149) as int;
    let e = pow2(125) as int;
    vstd::arithmetic::power2::lemma2_to64();
    lemma_pow2_adds(24, 125);
    lemma_pow2_unfold(126);
    lemma_pow2_pos(125);
    lemma_landmark_sizes();
    let p = lemma_progress_error(a, from, to, k);
    let t = lemma_brightness_error(p);
    lemma_brightness(p, p);
    lemma_size_order(p, ONE as int);
    let (rest, _) = lemma_rest(p, p);
    let one = Binary32 { bits: ONE };
    lemma_with_sign(false, p);
    lemma_difference(one, with_sign(false, p));
    lemma_with_sign(false, rest);
    lemma_with_sign(false, nearest(unit - size(p), 1));
    assert(exponent_of(ONE as int) == 126);
    lemma_nearest_error(unit - size(p), 1, ONE as int);
    let y = lemma_brightness_error(rest);
    lemma_brightness(rest, rest);
    let c = rising(a, from, to) as int;
    let d = falling(a, from, to) as int;
    lemma_cut_bounds(t, c, unit);
    lemma_cut_bounds(y, d, unit);
    let u = a.units() - (Binary32 { bits: from }).units();
    if k == 15 {
        assert(-20_000 * e <= 15 * t - 255 * u <= 20_000 * e);
        assert(-20_000 * e <= 15 * y - 255 * (15 * unit - u) <= 20_000 * e);
    } else {
        assert(-20_000 * e <= 20 * t - 255 * u <= 20_000 * e);
        assert(-20_000 * e <= 20 * y - 255 * (20 * unit - u) <= 20_000 * e);
    }
    lemma_line(rising(a, from, to), t, u, k, e);
    lemma_line(falling(a, from, to), y, k * unit - u, k, e);
}

/// The whole part of a value that is almost on the line.
proof fn lemma_line(c: u8, t: int, way: int, k: int, e: int)
    requires
        e > 0,
        pow2(149) == 0x100_0000 * e,
        k == 15 || k == 20,
        c * pow2(149) <= t < c * pow2(149) + pow2(149),
        -20_000 * e <= k * t - 255 * way <= 20_000 * e,
    ensures
        on_line(c, way, k),
{
    let unit = pow2(149) as int;
    let v = c * unit;
    if k == 15 {
        assert(1000 * (15 * c) * unit == 15_000 * v && (1000 * (15 * c + 15) + 15) * unit
            == 15_000 * v + 15_015 * unit) by (nonlinear_arith)
            requires
                v == c * unit,
        ;
    } else {
        assert(1000 * (20 * c) * unit == 20_000 * v && (1000 * (20 * c + 20) + 20) * unit
            == 20_000 * v + 20_020 * unit) by (nonlinear_arith)
            requires
                v == c * unit,
        ;
    }
}

/// A whole part and the value that it is cut from.
proof fn lemma_cut_bounds(t: int, c: int, unit: int)
    requires
        unit > 0,
        c == t / unit,
    ensures
        c * unit <= t < c * unit + unit,
{
    vstd::arithmetic::div_mod::lemma_fundamental_div_mod(t, unit);
    assert(unit * c == c * unit) by (nonlinear_arith);
}

/// The two numbers are at most 1/18 apart.
pub open spec fn close(a: Binary32, b: Binary32) -> bool {
    -(pow2(149) as int) <= 18 * (a.units() - b.units()) <= pow2(149)
}

/// A channel that comes in or goes out over 15 or 20 decibels has no jump.
proof fn lemma_no_jump_on_the_way(a: Binary32, b: Binary32, from: u32, to: u32, k: int)
    requires
        SIGNED_ZERO < from < SIGNED_INFINITY,
        SIGNED_ZERO < to < from,
        (Binary32 { bits: from }).units() <= a.units(),
        a.units() <= b.units(),
        b.units() <= (Binary32 { bits: to }).units(),
        a.magnitude() < INFINITY,
        b.magnitude() < INFINITY,
        close(a, b),
        k == 15 || k == 20,
        (Binary32 { bits: to }).units() - (Binary32 { bits: from }).units() == k * pow2(149),
    ensures
        -1 <= rising(a, from, to) - rising(b, from, to) <= 1,
        -1 <= falling(a, from, to) - falling(b, from, to) <= 1,
{
    let unit = pow2(149) as int;
    let e = pow2(125) as int;
    vstd::arithmetic::power2::lemma2_to64();
    lemma_pow2_adds(24, 125);
    lemma_pow2_unfold(126);
    lemma_pow2_pos(125);
    lemma_landmark_sizes();
    let p = lemma_progress_error(a, from, to, k);
    let q = lemma_progress_error(b, from, to, k);
    let s = lemma_brightness_error(p);
    let t = lemma_brightness_error(q);
    lemma_brightness(p, p);
    lemma_brightness(q, q);
    assert(-unit < s - t < unit);
    lemma_close_cuts(s, t, unit);
    // What is left of 1 is off by no more than another part in 2^24.
    lemma_size_order(p, ONE as int);
    lemma_size_order(q, ONE as int);
    let (p_rest, _) = lemma_rest(p, p);
    let (q_rest, _) = lemma_rest(q, q);
    let one = Binary32 { bits: ONE };
    lemma_with_sign(false, p);
    lemma_with_sign(false, q);
    lemma_difference(one, with_sign(false, p));
    lemma_difference(one, with_sign(false, q));
    lemma_with_sign(false, p_rest);
    lemma_with_sign(false, q_rest);
    lemma_with_sign(false, nearest(unit - size(p), 1));
    lemma_with_sign(false, nearest(unit - size(q), 1));
    assert(exponent_of(ONE as int) == 126);
    lemma_nearest_error(unit - size(p), 1, ONE as int);
    lemma_nearest_error(unit - size(q), 1, ONE as int);
    let x = lemma_brightness_error(p_rest);
    let y = lemma_brightness_error(q_rest);
    lemma_brightness(p_rest, p_rest);
    lemma_brightness(q_rest, q_rest);
    assert(-unit < x - y < unit);
    lemma_close_cuts(x, y, unit);
}

/// The colour has no jump, at no threshold either: two levels at most 1/18 of a
/// decibel apart, and so any two at most 0.05 apart, have channels that differ by
/// at most 1.
pub proof fn law_color_has_no_jump(a: Binary32, b: Binary32)
    requires
        !a.is_nan(),
        !b.is_nan(),
        close(a, b),
    ensures
        -1 <= color_of(a).0 - color_of(b).0 <= 1,
        -1 <= color_of(a).1 - color_of(b).1 <= 1,
        -1 <= color_of(a).2 - color_of(b).2 <= 1,
{
    if a.units() <= b.units() {
        lemma_no_jump_upwards(a, b);
    } else {
        lemma_no_jump_upwards(b, a);
    }
}

proof fn lemma_no_jump_upwards(a: Binary32, b: Binary32)
    requires
        !a.is_nan(),
        !b.is_nan(),
        close(a, b),
        a.units() <= b.units(),
    ensures
        -1 <= color_of(a).0 - color_of(b).0 <= 1,
        -1 <= color_of(a).1 - color_of(b).1 <= 1,
        -1 <= color_of(a).2 - color_of(b).2 <= 1,
{
    lemma_order(a, b);
    lemma_order(b, a);
    lemma_bounds(a);
    lemma_bounds(b);
    lemma_level_sizes();
    lemma_landmark_sizes();
    lemma_no_jump_over(a, b, MIN_DB, GREEN_FULL, 15);
    lemma_no_jump_over(a, b, YELLOW_START, YELLOW_MAX, 20);
    lemma_no_jump_over(a, b, RED_START, FLASH_THRESHOLD, 15);
}

/// The level, or the end of the way that is next to it.
spec fn held(a: Binary32, from: u32, to: u32) -> Binary32 {
    if a.units() < (Binary32 { bits: from }).units() {
        Binary32 { bits: from }
    } else if (Binary32 { bits: to }).units() < a.units() {
        Binary32 { bits: to }
    } else {
        a
    }
}

/// A channel that keeps its first and its last value outside of the way over
/// which it changes has no jump.
proof fn lemma_no_jump_over(a: Binary32, b: Binary32, from: u32, to: u32, k: int)
    requires
        SIGNED_ZERO < from < SIGNED_INFINITY,
        SIGNED_ZERO < to < from,
        a.units() <= b.units(),
        close(a, b),
        k == 15 || k == 20,
        (Binary32 { bits: to }).units() - (Binary32 { bits: from }).units() == k * pow2(149),
    ensures
        ({
            let x = held(a, from, to);
            let y = held(b, from, to);
            &&& -1 <= rising(x, from, to) - rising(y, from, to) <= 1
            &&& -1 <= falling(x, from, to) - falling(y, from, to) <= 1
            &&& x.units() == (Binary32 { bits: from }).units() ==> rising(x, from, to) == 0
                && falling(x, from, to) == 255
            &&& y.units() == (Binary32 { bits: to }).units() ==> rising(y, from, to) == 255
                && falling(y, from, to) == 0
        }),
{
    let start = Binary32 { bits: from };
    let end = Binary32 { bits: to };
    let x = held(a, from, to);
    let y = held(b, from, to);
    lemma_pow2_pos(149);
    lemma_order(start, x);
    lemma_order(x, end);
    lemma_order(start, y);
    lemma_order(y, end);
    lemma_order(x, start);
    lemma_order(end, y);
    lemma_rising(x, y, from, to);
    lemma_falling(x, y, from, to);
    lemma_no_jump_on_the_way(x, y, from, to, k);
}

/// The lowest level is shown as black.
pub proof fn lemma_silence_is_black()
    ensures
        color_of(Binary32 { bits: MIN_DB }) == (0u8, 0u8, 0u8),
{
    let low = Binary32 { bits: MIN_DB };
    lemma_bounds(low);
    lemma_order(low, Binary32 { bits: GREEN_FULL });
    lemma_rising(low, low, MIN_DB, GREEN_FULL);
}

/// How a number compares with the levels, by its place in the order.
proof fn lemma_bounds(a: Binary32)
    requires
        !a.is_nan(),
    ensures
        below(a, MIN_DB) <==> place(a) < -0x42A0_0000,
        below(a, GREEN_FULL) <==> place(a) < -0x4282_0000,
        below(a, YELLOW_START) <==> place(a) < -0x425C_0000,
        below(a, YELLOW_MAX) <==> place(a) < -0x420C_0000,
        below(a, FLASH_THRESHOLD) <==> place(a) < -0x41A0_0000,
        below(a, MIN_DB) <==> a.units() < (Binary32 { bits: MIN_DB }).units(),
        below(a, GREEN_FULL) <==> a.units() < (Binary32 { bits: GREEN_FULL }).units(),
        below(a, YELLOW_START) <==> a.units() < (Binary32 { bits: YELLOW_START }).units(),
        below(a, YELLOW_MAX) <==> a.units() < (Binary32 { bits: YELLOW_MAX }).units(),
        below(a, FLASH_THRESHOLD) <==> a.units() < (Binary32 { bits: FLASH_THRESHOLD }).units(),
{
    lemma_order(a, Binary32 { bits: MIN_DB });
    lemma_order(a, Binary32 { bits: GREEN_FULL });
    lemma_order(a, Binary32 { bits: YELLOW_START });
    lemma_order(a, Binary32 { bits: YELLOW_MAX });
    lemma_order(a, Binary32 { bits: FLASH_THRESHOLD });
}

} // verus!

//! How the displayed colour approaches the colour of the level.
use crate::binary32::{
    difference, lemma_enclosed_is_nearest, nearest, product, sum, whole, with_sign, Binary32,
};
use crate::color::{blend, blend_color, COLOR_SMOOTHING, ONE};
use crate::order::{
    lemma_difference, lemma_nearest_exact, lemma_nearest_zero, lemma_product, lemma_representable,
    lemma_same_ratio, lemma_with_sign,
};
use crate::rounding::{lemma_encloses_rounded, lemma_size_of_split, size, INFINITY};
use vstd::arithmetic::power2::{lemma_pow2_adds, lemma_pow2_pos, lemma_pow2_unfold, pow2};
use vstd::prelude::*;

verus! {

/// `n` to the nearest multiple of `unit`, ties to the even multiple.
spec fn to_multiple(n: u64, unit: u64) -> u64 {
    let kept = n / unit;
    let dropped = n % unit;
    if dropped > unit / 2 || (dropped == unit / 2 && kept % 2 == 1) {
        ((kept + 1) * unit) as u64
    } else {
        (kept * unit) as u64
    }
}

/// `n` to 24 binary digits.
spec fn to_digits(n: u64) -> u64 {
    if n < 0x100_0000 {
        n
    } else if n < 0x200_0000 {
        to_multiple(n, 2)
    } else if n < 0x400_0000 {
        to_multiple(n, 4)
    } else if n < 0x800_0000 {
        to_multiple(n, 8)
    } else if n < 0x1000_0000 {
        to_multiple(n, 16)
    } else if n < 0x2000_0000 {
        to_multiple(n, 32)
    } else if n < 0x4000_0000 {
        to_multiple(n, 64)
    } else if n < 0x8000_0000 {
        to_multiple(n, 128)
    } else {
        to_multiple(n, 256)
    }
}

/// One step of a channel in whole numbers: the shares of the two colours, in
/// parts of 2^-23, each kept to 24 digits, and so is their sum.
spec fn step(current: u64, target: u64) -> u64 {
    let old_part = to_digits((current * 7130317) as u64);
    let new_part = to_digits((target * 1258291) as u64);
    (to_digits((old_part + new_part) as u64) / 0x80_0000) as u64
}

#[verifier::spinoff_prover]
#[verifier::rlimit(100)]
proof fn lemma_step_bounds(c: u64, t: u64)
    requires
        c <= 255,
        t <= 255,
    ensures
        step(c, t) <= 255,
        c <= t ==> c <= step(c, t) <= t,
        t <= c ==> t <= step(c, t) <= c,
        t < c ==> step(c, t) < c,
        c + 7 <= t ==> c < step(c, t),
        c <= t && t <= c + 6 ==> step(c, t) == c,
{
    assert(c <= 255 && t <= 255 ==> step(c, t) <= 255) by (bit_vector);
    assert(c <= 255 && t <= 255 && c <= t ==> c <= step(c, t) <= t) by (bit_vector);
    assert(c <= 255 && t <= 255 && t <= c ==> t <= step(c, t) <= c) by (bit_vector);
    assert(c <= 255 && t <= 255 && t < c ==> step(c, t) < c) by (bit_vector);
    assert(c <= 255 && t <= 255 && c + 7 <= t ==> c < step(c, t)) by (bit_vector);
    assert(c <= 255 && t <= 255 && c <= t && t <= c + 6 ==> step(c, t) == c) by (bit_vector);
}

#[verifier::spinoff_prover]
#[verifier::rlimit(100)]
proof fn lemma_step_share(c: u64, t: u64)
    requires
        c <= 255,
        t <= 255,
    ensures
        100 * step(c, t) <= 85 * c + 15 * t <= 100 * step(c, t) + 100,
        t <= c ==> 85 * c + 15 * t < 100 * step(c, t) + 100,
{
    let old_share = (c * 7130317) as u64;
    let new_share = (t * 1258291) as u64;
    let old_part = to_digits(old_share);
    let new_part = to_digits(new_share);
    assert(old_share <= 0x8000_0000 ==> to_digits(old_share) <= old_share + 128) by (bit_vector);
    assert(new_share <= 0x8000_0000 ==> to_digits(new_share) <= new_share + 128) by (bit_vector);
    let total = (old_part + new_part) as u64;
    assert(total <= 0x1_0000_0000 ==> to_digits(total) <= total + 128) by (bit_vector);
    assert(100 * step(c, t) <= 85 * c + 15 * t);
    assert(c <= 255 && t <= 255 ==> 85 * c + 15 * t <= 100 * step(c, t) + 100) by (bit_vector);
    assert(c <= 255 && t <= 255 && t <= c ==> 85 * c + 15 * t < 100 * step(c, t) + 100)
        by (bit_vector);
}

/// Rounding a number of up to 32 digits, in parts of 2^-23, keeps 24 digits.
proof fn lemma_rounded_to_multiple(n: u64, shift: nat, unit: u64)
    requires
        1 <= shift <= 8,
        unit == pow2(shift),
        0x80_0000 * unit <= n,
        n < 0x100_0000 * unit,
    ensures
        size(nearest(n * pow2(126), 1)) == to_multiple(n, unit) * pow2(126),
        0 <= nearest(n * pow2(126), 1) < INFINITY,
{
    vstd::arithmetic::power2::lemma2_to64();
    assert(unit <= 256) by {
        if shift < 8 {
            vstd::arithmetic::power2::lemma_pow2_strictly_increases(shift, 8);
        }
    }
    let kept = (n / unit) as int;
    let dropped = (n % unit) as int;
    let u = unit as int;
    lemma_pow2_pos(shift);
    assert(0x80_0000 <= kept < 0x100_0000) by (nonlinear_arith)
        requires
            kept == n as int / u,
            0x80_0000 * u <= n,
            n < 0x100_0000 * u,
            u > 0,
    ;
    let q = if dropped > u / 2 || (dropped == u / 2 && kept % 2 == 1) {
        kept + 1
    } else {
        kept
    };
    let g = 126 + shift as int;
    let r = g * 0x80_0000 + q;
    lemma_encloses_rounded(n as int, 126, false, g, shift as int, kept, dropped, q);
    lemma_pow2_adds(126, 200);
    let p = pow2(126) as int;
    let scale = pow2(200) as int;
    assert(n * (p * scale) * 1 == (n * p) * scale) by (nonlinear_arith);
    lemma_enclosed_is_nearest(n as int, 126, false, r, n * p, 1);
    lemma_size_of_split(g, q);
    lemma_pow2_adds(126, shift);
    assert(q * (p * u) == (q * u) * p) by (nonlinear_arith);
    assert(q * u <= 0x100_0000 * 256) by (nonlinear_arith)
        requires
            0 <= q <= 0x100_0000,
            0 < u <= 256,
    ;
    assert(to_multiple(n, unit) == q * u);
}

proof fn lemma_rounded_to_digits(n: u64)
    requires
        n < 0x1_0000_0000,
    ensures
        size(nearest(n * pow2(126), 1)) == to_digits(n) * pow2(126),
        0 <= nearest(n * pow2(126), 1) < INFINITY,
        to_digits(n) <= 0x1_0000_0000,
{
    vstd::arithmetic::power2::lemma2_to64();
    assert(n < 0x1_0000_0000 ==> to_digits(n) <= 0x1_0000_0000) by (bit_vector);
    if n < 0x100_0000 {
        let r = lemma_representable(n as int, 126);
        lemma_nearest_exact(n * pow2(126), 1, r);
    } else if n < 0x200_0000 {
        lemma_rounded_to_multiple(n, 1, 2);
    } else if n < 0x400_0000 {
        lemma_rounded_to_multiple(n, 2, 4);
    } else if n < 0x800_0000 {
        lemma_rounded_to_multiple(n, 3, 8);
    } else if n < 0x1000_0000 {
        lemma_rounded_to_multiple(n, 4, 16);
    } else if n < 0x2000_0000 {
        lemma_rounded_to_multiple(n, 5, 32);
    } else if n < 0x4000_0000 {
        lemma_rounded_to_multiple(n, 6, 64);
    } else if n < 0x8000_0000 {
        lemma_rounded_to_multiple(n, 7, 128);
    } else {
        lemma_rounded_to_multiple(n, 8, 256);
    }
}

/// A whole number of at most 255 times a share of `k` parts of 2^-23.
proof fn lemma_part(c: u64, share: int, k: int) -> (r: int)
    requires
        c <= 255,
        0 <= share < INFINITY,
        0 <= k < 0x80_0000,
        size(share) == k * pow2(126),
    ensures
        0 <= r < INFINITY,
        product(whole(c as int), with_sign(false, share)) == with_sign(false, r),
        size(r) == to_digits((c * k) as u64) * pow2(126),
{
    let p = pow2(126) as int;
    let one = pow2(149) as int;
    lemma_pow2_pos(149);
    lemma_pow2_pos(126);
    let w = lemma_representable(c as int, 149);
    lemma_nearest_exact(c * pow2(149), 1, w);
    assert(c * k < 0x8000_0000) by (nonlinear_arith)
        requires
            c <= 255,
            0 <= k < 0x80_0000,
    ;
    assert(c * k >= 0) by (nonlinear_arith)
        requires
            c >= 0,
            k >= 0,
    ;
    let n = (c * k) as u64;
    assert(size(w) * size(share) == (n * p) * one) by (nonlinear_arith)
        requires
            size(w) == c * one,
            size(share) == k * p,
            n == c * k,
    ;
    assert(n * p >= 0) by (nonlinear_arith)
        requires
            n >= 0,
            p > 0,
    ;
    lemma_product(w, share);
    lemma_same_ratio(n * p, 1, one);
    lemma_rounded_to_digits(n);
    nearest(n * p, 1)
}

/// The step in whole numbers is the step of the colour.
proof fn lemma_blend(c: u8, t: u8)
    ensures
        blend(c, t) == step(c as u64, t as u64),
{
    let p = pow2(126) as int;
    let one = pow2(149) as int;
    vstd::arithmetic::power2::lemma2_to64();
    lemma_pow2_pos(126);
    lemma_pow2_pos(149);
    lemma_pow2_adds(23, 126);
    // The two shares: 7130317 and 1258291 parts of 2^-23.
    lemma_size_of_split(125, 14260634);
    lemma_pow2_unfold(126);
    assert(125 * 0x80_0000 + 14260634 == COLOR_SMOOTHING);
    assert(size(COLOR_SMOOTHING as int) == 7130317 * p);
    lemma_size_of_split(126, 0x80_0000);
    assert(size(ONE as int) == 0x80_0000 * p);
    let keep = Binary32 { bits: COLOR_SMOOTHING };
    let take_pattern = lemma_representable(1258291, 126);
    lemma_difference(Binary32 { bits: ONE }, keep);
    lemma_nearest_exact(1258291 * p, 1, take_pattern);
    assert(difference(Binary32 { bits: ONE }, keep) == with_sign(false, take_pattern));
    let x = lemma_part(c as u64, COLOR_SMOOTHING as int, 7130317);
    let y = lemma_part(t as u64, take_pattern, 1258291);
    assert(keep == with_sign(false, COLOR_SMOOTHING as int));
    let old_part = to_digits((c as u64 * 7130317) as u64);
    let new_part = to_digits((t as u64 * 1258291) as u64);
    let c64 = c as u64;
    let t64 = t as u64;
    assert(c64 <= 255 && t64 <= 255 ==> to_digits((c64 * 7130317) as u64) + to_digits(
        (t64 * 1258291) as u64,
    ) < 0x1_0000_0000) by (bit_vector);
    let total = (old_part + new_part) as u64;
    lemma_with_sign(false, x);
    lemma_with_sign(false, y);
    assert(size(x) + size(y) == total * p) by (nonlinear_arith)
        requires
            size(x) == old_part * p,
            size(y) == new_part * p,
            total == old_part + new_part,
    ;
    lemma_rounded_to_digits(total);
    let z = nearest(total * p, 1);
    if total * p == 0 {
        lemma_nearest_zero(1);
    }
    assert(total * p >= 0) by (nonlinear_arith)
        requires
            total >= 0,
            p > 0,
    ;
    assert(sum(with_sign(false, x), with_sign(false, y)) == with_sign(false, z));
    lemma_with_sign(false, z);
    let digits = to_digits(total) as int;
    assert(size(z) / one == digits / 0x80_0000) by {
        vstd::arithmetic::div_mod::lemma_div_denominator(digits * p, p, 0x80_0000);
        vstd::arithmetic::div_mod::lemma_div_by_multiple(digits, p);
    }
    lemma_step_bounds(c64, t64);
}

/// A step of the displayed colour never leaves the range between the old
/// channel and the wanted one. It always comes down where it has to, and it
/// always goes up where it is more than 6 short; where it is 6 short or less it
/// stays.
pub proof fn law_step_approaches_target(current: u8, target: u8)
    ensures
        current <= target ==> current <= blend(current, target) <= target,
        target <= current ==> target <= blend(current, target) <= current,
        target < current ==> blend(current, target) < current,
        current + 7 <= target ==> current < blend(current, target),
        current <= target && target <= current + 6 ==> blend(current, target) == current,
{
    lemma_blend(current, target);
    lemma_step_bounds(current as u64, target as u64);
}

/// `new` is 85 hundredths of the old channel and 15 hundredths of the wanted one,
/// cut to a whole number. Where that is a whole number already and the wanted
/// channel is the brighter one, rounding may take away 1.
pub open spec fn is_smoothed(old_channel: u8, wanted: u8, new: u8) -> bool {
    &&& 100 * new <= 85 * old_channel + 15 * wanted
    &&& 85 * old_channel + 15 * wanted <= 100 * new + 100
    &&& wanted <= old_channel ==> 85 * old_channel + 15 * wanted < 100 * new + 100
}

/// Every channel of the displayed colour moves 15 hundredths of its own way to
/// the wanted colour, and never leaves that way.
pub proof fn law_every_channel_is_smoothed(current: (u8, u8, u8), target: (u8, u8, u8))
    ensures
        ({
            let (red, green, blue) = blend_color(current, target);
            &&& is_smoothed(current.0, target.0, red)
            &&& is_smoothed(current.1, target.1, green)
            &&& is_smoothed(current.2, target.2, blue)
            &&& between(current.0, red, target.0)
            &&& between(current.1, green, target.1)
            &&& between(current.2, blue, target.2)
        }),
{
    lemma_smoothed(current.0, target.0);
    lemma_smoothed(current.1, target.1);
    lemma_smoothed(current.2, target.2);
}

/// `b` lies between the other two, or on one of them. Coming down it leaves the
/// first behind, and so it does going up where the way is 7 or more; going up
/// where the way is shorter it stays.
pub open spec fn between(a: u8, b: u8, c: u8) -> bool {
    &&& a <= c ==> a <= b <= c
    &&& c <= a ==> c <= b <= a
    &&& c < a ==> b < a
    &&& a + 7 <= c ==> a < b
    &&& a <= c <= a + 6 ==> b == a
}

proof fn lemma_smoothed(current: u8, target: u8)
    ensures
        is_smoothed(current, target, blend(current, target)),
        between(current, blend(current, target), target),
{
    lemma_blend(current, target);
    lemma_step_share(current as u64, target as u64);
    law_step_approaches_target(current, target);
}

/// The channels are treated alike, and each by itself: exchanging channels
/// exchanges them in the result, and no channel has a part in another.
pub proof fn law_channels_are_alike(
    current: (u8, u8, u8),
    target: (u8, u8, u8),
    other: (u8, u8, u8),
    wanted: (u8, u8, u8),
)
    ensures
        current.0 == other.1 && target.0 == wanted.1 ==> blend_color(current, target).0
            == blend_color(other, wanted).1,
        current.1 == other.2 && target.1 == wanted.2 ==> blend_color(current, target).1
            == blend_color(other, wanted).2,
        current.2 == other.0 && target.2 == wanted.0 ==> blend_color(current, target).2
            == blend_color(other, wanted).0,
{
}

/// A colour after `n` steps towards the same target.
pub open spec fn smooth_repeatedly(
    current: (u8, u8, u8),
    target: (u8, u8, u8),
    n: nat,
) -> (u8, u8, u8)
    decreases n,
{
    if n == 0 {
        current
    } else {
        blend_color(smooth_repeatedly(current, target, (n - 1) as nat), target)
    }
}

/// Under a steady level the displayed colour settles within 255 steps: every
/// channel that was too bright is at its target, every other at most 6 short.
pub proof fn law_display_settles(current: (u8, u8, u8), target: (u8, u8, u8), n: nat)
    requires
        n >= 255,
    ensures
        ({
            let end = smooth_repeatedly(current, target, n);
            &&& settled(current.0, end.0, target.0)
            &&& settled(current.1, end.1, target.1)
            &&& settled(current.2, end.2, target.2)
        }),
{
    lemma_smooth_channels(current, target, n);
    law_color_settles(current.0, target.0, n);
    law_color_settles(current.1, target.1, n);
    law_color_settles(current.2, target.2, n);
}

/// A channel that began at `a` has come to `c`, or to within 6 below it.
pub open spec fn settled(a: u8, b: u8, c: u8) -> bool {
    &&& c <= a ==> b == c
    &&& a <= c ==> b <= c <= b + 6
}

proof fn lemma_smooth_channels(current: (u8, u8, u8), target: (u8, u8, u8), n: nat)
    ensures
        smooth_repeatedly(current, target, n) == (
            blend_repeatedly(current.0, target.0, n),
            blend_repeatedly(current.1, target.1, n),
            blend_repeatedly(current.2, target.2, n),
        ),
    decreases n,
{
    if n > 0 {
        lemma_smooth_channels(current, target, (n - 1) as nat);
    }
}

/// A channel after `n` steps towards the same target.
pub open spec fn blend_repeatedly(current: u8, target: u8, n: nat) -> u8
    decreases n,
{
    if n == 0 {
        current
    } else {
        blend(blend_repeatedly(current, target, (n - 1) as nat), target)
    }
}

/// Under a steady level the displayed colour settles: a channel that is too
/// bright reaches its target exactly, one that is too dark comes within 6 of
/// it, each losing at least one part of 255 per step on the way.
pub proof fn law_color_settles(current: u8, target: u8, n: nat)
    ensures
        target <= current ==> {
            &&& target <= blend_repeatedly(current, target, n)
            &&& blend_repeatedly(current, target, n) == target || blend_repeatedly(
                current,
                target,
                n,
            ) <= current - n
        },
        current <= target ==> {
            &&& blend_repeatedly(current, target, n) <= target
            &&& blend_repeatedly(current, target, n) + 6 >= target || blend_repeatedly(
                current,
                target,
                n,
            ) >= current + n
        },
        n >= 255 ==> target <= current ==> blend_repeatedly(current, target, n) == target,
        n >= 255 ==> current <= target ==> target <= blend_repeatedly(current, target, n) + 6,
    decreases n,
{
    if n > 0 {
        law_color_settles(current, target, (n - 1) as nat);
        law_step_approaches_target(
            blend_repeatedly(current, target, (n - 1) as nat),
            target,
        );
    }
}

} // verus!

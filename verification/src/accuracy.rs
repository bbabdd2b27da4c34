//! How well the level of a block measures its samples.
//!
//! The root mean square is compared with the exact one, in whole numbers: the
//! squares of the samples are added up exactly, in units of 2^-298.
use crate::binary32::{
    nearest, nearest_root, product, quotient, root, sum, whole, with_sign, Binary32,
};
use crate::color::{lemma_landmark_sizes, ONE};
use crate::exactness::{apart, finite};
use crate::level::{root_mean_square, signed_samples, square_sum, unsigned_samples};
use crate::loudness::{
    law_full_scale, law_signed_samples_scale_exactly, law_silence_is_black,
    law_unsigned_samples_scale_exactly, lemma_count,
};
use crate::order::{
    lemma_nearest_defined, lemma_nearest_error, lemma_nearest_exact, lemma_nearest_order,
    lemma_nearest_root_defined, lemma_nearest_zero, lemma_product, lemma_quotient,
    lemma_representable, lemma_size_order, lemma_with_sign,
};
use crate::rounding::{
    digits_of, exponent_of, lemma_size_increases, lemma_size_of_split, lemma_size_zero, lemma_split,
    size, INFINITY,
};
use vstd::arithmetic::power2::{lemma_pow2_adds, lemma_pow2_pos, pow2};
use vstd::prelude::*;

verus! {

/// The exact sum of the squares of the samples.
pub open spec fn exact_squares(samples: Seq<Binary32>) -> int
    decreases samples.len(),
{
    if samples.len() == 0 {
        0
    } else {
        exact_squares(samples.drop_last()) + samples.last().units() * samples.last().units()
    }
}

/// Rounding moves a value by at most one part in 2^24 of the result, or by half
/// a unit.
proof fn lemma_relative(num: int, den: int)
    requires
        num >= 0,
        den > 0,
        nearest(num, den) < INFINITY,
    ensures
        ({
            let s = size(nearest(num, den));
            &&& s >= 0
            &&& 0x100_0000 * (num - den * s) <= den * (s + 0x80_0000)
            &&& 0x100_0000 * (den * s - num) <= den * (s + 0x80_0000)
        }),
{
    let r = nearest(num, den);
    lemma_nearest_defined(num, den);
    lemma_nearest_error(num, den, r);
    lemma_split(r);
    let gap = pow2(exponent_of(r) as nat) as int;
    vstd::arithmetic::power2::lemma2_to64();
    lemma_pow2_pos(exponent_of(r) as nat);
    let s = size(r);
    assert(0x80_0000 * gap <= s + 0x80_0000) by {
        if exponent_of(r) > 0 {
            assert(0x80_0000 * gap <= digits_of(r) * gap) by (nonlinear_arith)
                requires
                    digits_of(r) >= 0x80_0000,
                    gap > 0,
            ;
        }
    }
    assert(0x80_0000 * (den * gap) <= den * (s + 0x80_0000)) by (nonlinear_arith)
        requires
            0x80_0000 * gap <= s + 0x80_0000,
            den > 0,
    ;
}

/// One step of a sum of squares, as patterns: the total before, the square and
/// the total after.
proof fn lemma_add_square(t: int, x: Binary32) -> (r: (int, int))
    requires
        0 <= t <= INFINITY,
        finite(x),
        sum(with_sign(false, t), product(x, x)).magnitude() < INFINITY,
    ensures
        t < INFINITY,
        0 <= r.0 < INFINITY,
        0 <= r.1 < INFINITY,
        t <= r.1,
        r.0 <= r.1,
        sum(with_sign(false, t), product(x, x)) == with_sign(false, r.1),
        r.1 == nearest(size(t) + size(r.0), 1),
        r.0 == nearest(x.units() * x.units(), pow2(149) as int),
        0 <= size(t),
        0 <= size(r.0) <= size(r.1),
        size(t) <= size(r.1),
        x.units() * x.units() >= 0,
{
    let m = x.magnitude();
    lemma_pow2_pos(149);
    lemma_size_order(0, m);
    let v = size(m);
    assert(x.units() * x.units() == v * v && v * v >= 0) by (nonlinear_arith)
        requires
            x.units() == v || x.units() == -v,
    ;
    lemma_product(m, m);
    let p = nearest(v * v, pow2(149) as int);
    assert(product(x, x) == with_sign(false, p));
    lemma_with_sign(false, p);
    lemma_with_sign(false, t);
    assert(t < INFINITY && p < INFINITY);
    lemma_size_order(0, t);
    lemma_size_order(0, p);
    let after = nearest(size(t) + size(p), 1);
    lemma_nearest_defined(size(t) + size(p), 1);
    lemma_with_sign(false, after);
    if size(t) + size(p) == 0 {
        lemma_nearest_zero(1);
    }
    assert(sum(with_sign(false, t), with_sign(false, p)) == with_sign(false, after));
    lemma_nearest_exact(size(t), 1, t);
    lemma_nearest_exact(size(p), 1, p);
    lemma_nearest_order(size(t), 1, size(t) + size(p), 1);
    lemma_nearest_order(size(p), 1, size(t) + size(p), 1);
    lemma_size_order(t, after);
    lemma_size_order(p, after);
    (p, after)
}

/// Every sample is finite.
pub open spec fn all_finite(samples: Seq<Binary32>) -> bool {
    forall|i: int| 0 <= i < samples.len() ==> finite(#[trigger] samples[i])
}

/// The total of the squares differs from the exact one by at most two roundings
/// for every sample.
proof fn lemma_total_error(samples: Seq<Binary32>) -> (t: int)
    requires
        all_finite(samples),
        square_sum(samples).magnitude() < INFINITY,
    ensures
        0 <= t < INFINITY,
        square_sum(samples) == with_sign(false, t),
        size(t) >= 0,
        exact_squares(samples) >= 0,
        0x80_0000 * apart(size(t) * pow2(149), exact_squares(samples)) <= samples.len() * (pow2(149)
            * (size(t) + 0x80_0000)),
    decreases samples.len(),
{
    let unit = pow2(149) as int;
    lemma_pow2_pos(149);
    let n = samples.len() as int;
    if n == 0 {
        lemma_size_zero();
        assert(0 * unit == 0);
        0
    } else {
        let shorter = samples.drop_last();
        let x = samples.last();
        assert(finite(samples[n - 1]));
        assert(all_finite(shorter)) by {
            assert forall|i: int| 0 <= i < shorter.len() implies finite(#[trigger] shorter[i]) by {
                assert(finite(samples[i]));
            }
        }
        let t0 = lemma_total_sign(shorter);
        let (p, t1) = lemma_add_square(t0, x);
        lemma_with_sign(false, t0);
        let t = lemma_total_error(shorter);
        lemma_with_sign(false, t);
        assert(t == t0);
        let a = exact_squares(shorter);
        let q = x.units() * x.units();
        lemma_relative(q, unit);
        lemma_relative(size(t0) + size(p), 1);
        lemma_error_step(n - 1, size(t0), size(p), size(t1), a, q, unit);
        t1
    }
}

/// The total of the squares is not negative, and a number.
proof fn lemma_total_sign(samples: Seq<Binary32>) -> (t: int)
    requires
        all_finite(samples),
    ensures
        0 <= t <= INFINITY,
        square_sum(samples) == with_sign(false, t),
    decreases samples.len(),
{
    if samples.len() == 0 {
        0
    } else {
        let shorter = samples.drop_last();
        let x = samples.last();
        assert(finite(samples[samples.len() - 1]));
        assert(all_finite(shorter)) by {
            assert forall|i: int| 0 <= i < shorter.len() implies finite(#[trigger] shorter[i]) by {
                assert(finite(samples[i]));
            }
        }
        let t = lemma_total_sign(shorter);
        let m = x.magnitude();
        lemma_product(m, m);
        let p = nearest(size(m) * size(m), pow2(149) as int);
        assert(product(x, x) == with_sign(false, p));
        lemma_with_sign(false, p);
        lemma_with_sign(false, t);
        lemma_size_order(0, t);
        lemma_size_order(0, p);
        lemma_nearest_defined(size(t) + size(p), 1);
        if size(t) + size(p) == 0 {
            lemma_nearest_zero(1);
        }
        if t == INFINITY || p == INFINITY {
            INFINITY as int
        } else {
            nearest(size(t) + size(p), 1)
        }
    }
}

/// The error of a total grows by at most two roundings with one more square.
proof fn lemma_error_step(n: int, t0: int, p: int, t1: int, a: int, q: int, unit: int)
    requires
        n >= 0,
        unit > 0,
        0 <= t0 <= t1,
        0 <= p <= t1,
        0x80_0000 * apart(t0 * unit, a) <= n * (unit * (t0 + 0x80_0000)),
        0x100_0000 * (q - unit * p) <= unit * (p + 0x80_0000),
        0x100_0000 * (unit * p - q) <= unit * (p + 0x80_0000),
        0x100_0000 * ((t0 + p) - 1 * t1) <= 1 * (t1 + 0x80_0000),
        0x100_0000 * (1 * t1 - (t0 + p)) <= 1 * (t1 + 0x80_0000),
    ensures
        0x80_0000 * apart(t1 * unit, a + q) <= (n + 1) * (unit * (t1 + 0x80_0000)),
{
    let bound = unit * (t1 + 0x80_0000);
    let u0 = t0 * unit;
    let u1 = t1 * unit;
    let up = unit * p;
    assert(n * (unit * (t0 + 0x80_0000)) <= n * bound) by (nonlinear_arith)
        requires
            n >= 0,
            unit > 0,
            t0 <= t1,
            bound == unit * (t1 + 0x80_0000),
    ;
    assert(unit * (p + 0x80_0000) <= bound) by (nonlinear_arith)
        requires
            unit > 0,
            p <= t1,
            bound == unit * (t1 + 0x80_0000),
    ;
    assert(0x100_0000 * (u0 + up - u1) <= bound && 0x100_0000 * (u1 - u0 - up) <= bound)
        by (nonlinear_arith)
        requires
            0x100_0000 * ((t0 + p) - t1) <= t1 + 0x80_0000,
            0x100_0000 * (t1 - (t0 + p)) <= t1 + 0x80_0000,
            u0 == t0 * unit,
            u1 == t1 * unit,
            up == unit * p,
            unit > 0,
            bound == unit * (t1 + 0x80_0000),
    ;
    assert((n + 1) * bound == n * bound + bound) by (nonlinear_arith);
}

/// The root of a number, as a pattern: its square is the number up to one part in
/// 2^22.
proof fn lemma_root_error(m: int) -> (r: int)
    requires
        0 < m < INFINITY,
    ensures
        0 < r < INFINITY,
        r == nearest_root(size(m) * pow2(149)),
        0x40_0000 * apart(size(r) * size(r), size(m) * pow2(149)) <= size(r) * size(r),
{
    let unit = pow2(149) as int;
    lemma_pow2_pos(149);
    lemma_size_increases(0, m);
    lemma_size_zero();
    let n = size(m) * unit;
    assert(n >= unit) by (nonlinear_arith)
        requires
            n == size(m) * unit,
            size(m) >= 1,
            unit > 0,
    ;
    lemma_nearest_root_defined(n);
    let r = nearest_root(n);
    let s = size(r);
    // The root is at least 2^74, far above the numbers that have fewer digits.
    let low = lemma_representable(1, 74);
    let tiny = pow2(74) as int;
    lemma_pow2_pos(74);
    lemma_pow2_adds(74, 75);
    lemma_pow2_adds(1, 74);
    vstd::arithmetic::power2::lemma2_to64();
    assert(low <= r) by {
        if r < low {
            lemma_size_order(r + 1, low);
            lemma_size_order(0, r);
            lemma_size_order(r, low);
            let w = size(r) + size(r + 1);
            assert(w * w <= 4 * (tiny * tiny)) by (nonlinear_arith)
                requires
                    0 <= w <= 2 * tiny,
            ;
            assert(tiny * tiny < unit) by (nonlinear_arith)
                requires
                    unit == tiny * (2 * tiny),
                    tiny > 0,
            ;
        }
    }
    lemma_size_order(low, r);
    // The largest root is that of the largest number, far below infinity.
    assert(r < INFINITY) by {
        if r == INFINITY as int {
            lemma_size_increases(m, INFINITY as int);
            lemma_size_order(0, r - 1);
            let top = size(r);
            lemma_size_of_split(254, 0x80_0000);
            lemma_pow2_adds(23, 254);
            lemma_pow2_adds(128, 149);
            lemma_pow2_adds(2, 126);
            lemma_pow2_adds(2, 149);
            vstd::arithmetic::power2::lemma_pow2_strictly_increases(2, 126);
            let k = pow2(128) as int;
            assert(top == k * unit);
            let w = size(r - 1) + top;
            assert(w * w >= top * top) by (nonlinear_arith)
                requires
                    w >= top,
                    top >= 0,
            ;
            assert(n < top * unit) by (nonlinear_arith)
                requires
                    n == size(m) * unit,
                    size(m) < top,
                    unit > 0,
            ;
            assert(top * top >= 4 * (top * unit)) by (nonlinear_arith)
                requires
                    top == k * unit,
                    k >= 4,
                    unit > 0,
            ;
        }
    }
    lemma_split(r);
    lemma_split(r - 1);
    let gap = pow2(exponent_of(r) as nat) as int;
    let below = pow2(exponent_of(r - 1) as nat) as int;
    if exponent_of(r - 1) < exponent_of(r) {
        vstd::arithmetic::power2::lemma_pow2_strictly_increases(
            exponent_of(r - 1) as nat,
            exponent_of(r) as nat,
        );
    }
    assert(exponent_of(r) > 0) by {
        if exponent_of(r) == 0 {
            assert(s < 0x100_0000) by (nonlinear_arith)
                requires
                    s == digits_of(r) * gap,
                    gap == 1,
                    digits_of(r) < 0x100_0000,
            ;
            vstd::arithmetic::power2::lemma_pow2_strictly_increases(24, 74);
        }
    }
    lemma_pow2_pos(exponent_of(r) as nat);
    lemma_pow2_pos(exponent_of(r - 1) as nat);
    assert(0x80_0000 * gap <= s) by (nonlinear_arith)
        requires
            s == digits_of(r) * gap,
            digits_of(r) >= 0x80_0000,
            gap > 0,
    ;
    let up = size(r) + size(r + 1);
    let down = size(r - 1) + size(r);
    assert(4 * n <= up * up && down * down <= 4 * n);
    assert(up == 2 * s + gap && down == 2 * s - below);
    lemma_square_gap(s, gap, n);
    lemma_square_gap_below(s, below, gap, n);
    r
}

proof fn lemma_square_gap(s: int, gap: int, n: int)
    requires
        0 < 0x80_0000 * gap <= s,
        4 * n <= (2 * s + gap) * (2 * s + gap),
    ensures
        0x40_0000 * (n - s * s) <= s * s,
{
    let v = s * gap;
    let w = gap * gap;
    assert((2 * s + gap) * (2 * s + gap) == 4 * (s * s) + 4 * v + w) by (nonlinear_arith)
        requires
            v == s * gap,
            w == gap * gap,
    ;
    assert(0x80_0000 * v <= s * s) by (nonlinear_arith)
        requires
            0 < 0x80_0000 * gap <= s,
            v == s * gap,
    ;
    assert(w <= v) by (nonlinear_arith)
        requires
            0 < 0x80_0000 * gap <= s,
            v == s * gap,
            w == gap * gap,
    ;
}

proof fn lemma_square_gap_below(s: int, below: int, gap: int, n: int)
    requires
        0 < below <= gap,
        0x80_0000 * gap <= s,
        (2 * s - below) * (2 * s - below) <= 4 * n,
    ensures
        0x40_0000 * (s * s - n) <= s * s,
{
    let v = s * below;
    let w = below * below;
    assert((2 * s - below) * (2 * s - below) == 4 * (s * s) - 4 * v + w) by (nonlinear_arith)
        requires
            v == s * below,
            w == below * below,
    ;
    assert(0x80_0000 * v <= s * s) by (nonlinear_arith)
        requires
            0 < below <= gap,
            0x80_0000 * gap <= s,
            v == s * below,
    ;
    assert(w >= 0) by (nonlinear_arith)
        requires
            w == below * below,
    ;
}

/// The errors of the three roundings put together: of the root, of the mean and
/// of the total.
proof fn lemma_errors(n: int, x: int, y: int, z: int, a: int, w: int, unit: int)
    requires
        0 < n <= 0x40_0000,
        unit > 0,
        w == n * unit,
        x >= 0,
        y >= 0,
        z >= 0,
        a >= 0,
        0x40_0000 * apart(x, y) <= x,
        0x100_0000 * apart(z, y) <= y + 0x80_0000 * w,
        0x80_0000 * apart(z, a) <= n * z + 0x80_0000 * w,
    ensures
        0x40_0000 * apart(x, a) <= (n + 9) * a + 0xC0_0000 * w,
{
    assert(n * z <= 0x40_0000 * z && w > 0) by (nonlinear_arith)
        requires
            0 < n <= 0x40_0000,
            z >= 0,
            w == n * unit,
            unit > 0,
    ;
    assert(z <= 2 * a + 2 * w);
    assert(n * z <= 2 * (n * a) + 2 * (n * w) && n * w <= 0x40_0000 * w && (n + 9) * a == n * a + 9
        * a) by (nonlinear_arith)
        requires
            z <= 2 * a + 2 * w,
            0 < n <= 0x40_0000,
            w > 0,
    ;
}

/// The mean and its root, of a total that is finite.
proof fn lemma_mean_and_root(t: int, n: int) -> (r: (int, int))
    requires
        0 <= t < INFINITY,
        1 <= n <= usize::MAX,
    ensures
        ({
            let count = size(nearest(n * pow2(149), 1));
            let m = r.0;
            &&& count >= 1
            &&& 0x100_0000 * apart(count, n * pow2(149)) <= count + 0x80_0000
            &&& n < 0x100_0000 ==> count == n * pow2(149)
            &&& 0 <= m < INFINITY
            &&& 0 <= r.1 < INFINITY
            &&& size(m) >= 0
            &&& size(r.1) >= 0
            &&& size(t) >= 0
            &&& root_of_total(with_sign(false, t), n) == with_sign(false, r.1)
            &&& 0x100_0000 * apart(size(t) * pow2(149), count * size(m)) <= count * (size(m)
                + 0x80_0000)
            &&& 0x40_0000 * apart(size(r.1) * size(r.1), size(m) * pow2(149)) <= size(r.1) * size(
                r.1,
            )
        }),
{
    let unit = pow2(149) as int;
    lemma_landmark_sizes();
    lemma_count(n);
    let pattern = nearest(n * unit, 1);
    let count = size(pattern);
    assert(n * unit >= 0) by (nonlinear_arith)
        requires
            n >= 1,
            unit > 0,
    ;
    lemma_relative(n * unit, 1);
    assert(1 * count == count);
    if n < 0x100_0000 {
        let exact = lemma_representable(n, 149);
        lemma_nearest_exact(n * unit, 1, exact);
    }
    lemma_size_order(ONE as int, pattern);
    lemma_quotient(t, pattern);
    let num = size(t) * unit;
    let m = nearest(num, count);
    lemma_size_order(0, t);
    assert(m <= t) by {
        assert(size(t) * unit == unit * size(t)) by (nonlinear_arith);
        lemma_nearest_exact(num, unit, t);
        assert(num * unit <= num * count) by (nonlinear_arith)
            requires
                num >= 0,
                unit <= count,
        ;
        lemma_nearest_order(num, count, num, unit);
    }
    lemma_relative(num, count);
    lemma_with_sign(false, m);
    if m == 0 {
        lemma_size_zero();
        assert(size(m) * unit == 0 && size(m) * size(m) == 0) by (nonlinear_arith)
            requires
                size(m) == 0,
        ;
        (m, 0)
    } else {
        let r = lemma_root_error(m);
        lemma_size_order(0, r);
        (m, r)
    }
}

/// The root of the mean of `n` squares with the given total.
pub open spec fn root_of_total(total: Binary32, n: int) -> Binary32 {
    root(quotient(total, whole(n)))
}

/// The root mean square of a block is as exact as adding up its squares one by
/// one allows: `n` times its square is the exact sum of the squares, up to
/// `n + 9` parts in 2^22, and 3 units for every sample that is almost nothing.
/// That is one part in 4000 for a block of 1024 samples. Every sample counts, and
/// all count alike.
pub proof fn law_root_mean_square_is_accurate(samples: Seq<Binary32>)
    requires
        0 < samples.len() <= 0x40_0000,
        all_finite(samples),
        square_sum(samples).magnitude() < INFINITY,
    ensures
        root_mean_square(samples) is Some,
        ({
            let n = samples.len() as int;
            let r = root_mean_square(samples)->0;
            let exact = exact_squares(samples);
            &&& finite(r)
            &&& r.units() >= 0
            &&& 0x40_0000 * apart(n * (r.units() * r.units()), exact) <= (n + 9) * exact + 0xC0_0000
                * (n * pow2(149))
        }),
{
    let unit = pow2(149) as int;
    lemma_pow2_pos(149);
    let n = samples.len() as int;
    assert(0x40_0000 <= usize::MAX);
    let t = lemma_total_error(samples);
    let (m, r) = lemma_mean_and_root(t, n);
    lemma_with_sign(false, r);
    let a = exact_squares(samples);
    let count = n * unit;
    let rr = size(r) * size(r);
    let mm = size(m) * unit;
    let x = n * rr;
    let y = n * mm;
    let z = size(t) * unit;
    assert(rr >= 0 && mm >= 0 && z >= 0) by (nonlinear_arith)
        requires
            size(r) >= 0,
            size(m) >= 0,
            size(t) >= 0,
            unit > 0,
            rr == size(r) * size(r),
            mm == size(m) * unit,
            z == size(t) * unit,
    ;
    lemma_scale_apart(n, rr, mm);
    assert(x >= 0 && y >= 0) by (nonlinear_arith)
        requires
            n > 0,
            rr >= 0,
            mm >= 0,
            x == n * rr,
            y == n * mm,
    ;
    assert(count * size(m) == y && count * (size(m) + 0x80_0000) == y + 0x80_0000 * count)
        by (nonlinear_arith)
        requires
            count == n * unit,
            y == n * mm,
            mm == size(m) * unit,
    ;
    assert(n * (unit * (size(t) + 0x80_0000)) == n * z + 0x80_0000 * count) by (nonlinear_arith)
        requires
            count == n * unit,
            z == size(t) * unit,
    ;
    lemma_errors(n, x, y, z, a, count, unit);
}

/// Multiplying two values multiplies what lies between them.
proof fn lemma_scale_apart(n: int, rr: int, mm: int)
    requires
        n > 0,
        0x40_0000 * apart(rr, mm) <= rr,
    ensures
        0x40_0000 * apart(n * rr, n * mm) <= n * rr,
{
    if rr < mm {
        assert(0x40_0000 * (n * mm - n * rr) <= n * rr && n * rr < n * mm) by (nonlinear_arith)
            requires
                n > 0,
                0x40_0000 * (mm - rr) <= rr,
                rr < mm,
        ;
    } else {
        assert(0x40_0000 * (n * rr - n * mm) <= n * rr && n * rr >= n * mm) by (nonlinear_arith)
            requires
                n > 0,
                0x40_0000 * (rr - mm) <= rr,
                rr >= mm,
        ;
    }
}

/// Every sample lies between -1 and 1.
pub open spec fn all_in_scale(samples: Seq<Binary32>) -> bool {
    forall|i: int| 0 <= i < samples.len() ==> (#[trigger] samples[i]).magnitude() <= ONE
}

/// The total of a block within full scale is finite.
proof fn lemma_in_scale(samples: Seq<Binary32>) -> (t: int)
    requires
        0 < samples.len() <= usize::MAX,
        all_in_scale(samples),
    ensures
        all_finite(samples),
        0 <= t < INFINITY,
        square_sum(samples) == with_sign(false, t),
        square_sum(samples).magnitude() < INFINITY,
{
    assert forall|i: int| 0 <= i < samples.len() implies finite(#[trigger] samples[i]) by {
        assert(samples[i].magnitude() <= ONE);
    }
    let n = samples.len() as int;
    let t = lemma_total_sign(samples);
    lemma_with_sign(false, t);
    if t == INFINITY {
        law_full_scale(samples);
        lemma_count(n);
        lemma_with_sign(false, nearest(n * pow2(149), 1));
        lemma_with_sign(false, INFINITY as int);
        lemma_size_increases(ONE as int, INFINITY as int);
        assert(root_mean_square(samples)->0 == with_sign(false, INFINITY as int));
    }
    t
}

/// The total is at least every single square.
proof fn lemma_total_at_least(samples: Seq<Binary32>, i: int) -> (t: int)
    requires
        all_finite(samples),
        0 <= i < samples.len(),
        square_sum(samples).magnitude() < INFINITY,
    ensures
        0 <= t < INFINITY,
        square_sum(samples) == with_sign(false, t),
        0 <= nearest(samples[i].units() * samples[i].units(), pow2(149) as int) <= t,
        samples[i].units() * samples[i].units() >= 0,
    decreases samples.len(),
{
    let n = samples.len() as int;
    let shorter = samples.drop_last();
    assert(finite(samples[n - 1]));
    assert(all_finite(shorter)) by {
        assert forall|j: int| 0 <= j < shorter.len() implies finite(#[trigger] shorter[j]) by {
            assert(finite(samples[j]));
        }
    }
    let t0 = lemma_total_sign(shorter);
    let (_, t1) = lemma_add_square(t0, samples.last());
    lemma_with_sign(false, t0);
    if i < n - 1 {
        let t = lemma_total_at_least(shorter, i);
        lemma_with_sign(false, t);
    }
    t1
}

/// No sample is lost in a block, however long: `4 n` times the square of the root
/// mean square of `n` samples is at least the square of every one of them that is
/// not almost nothing.
pub proof fn law_every_sample_counts(samples: Seq<Binary32>, i: int)
    requires
        0 < samples.len() <= usize::MAX,
        all_in_scale(samples),
        0 <= i < samples.len(),
        samples[i].units() * samples[i].units() >= 0x400_0000 * (samples.len() * pow2(149)),
    ensures
        root_mean_square(samples) is Some,
        ({
            let r = root_mean_square(samples)->0.units();
            4 * (samples.len() * (r * r)) >= samples[i].units() * samples[i].units()
        }),
{
    let unit = pow2(149) as int;
    lemma_pow2_pos(149);
    let n = samples.len() as int;
    let t = lemma_in_scale(samples);
    let t1 = lemma_total_at_least(samples, i);
    lemma_with_sign(false, t);
    lemma_with_sign(false, t1);
    let (m, r) = lemma_mean_and_root(t, n);
    lemma_with_sign(false, r);
    let xx = samples[i].units() * samples[i].units();
    let p = nearest(xx, unit);
    lemma_size_order(p, t);
    lemma_size_order(0, p);
    lemma_relative(xx, unit);
    let count = size(nearest(n * unit, 1));
    let w = n * unit;
    let up = unit * size(p);
    let ut = size(t) * unit;
    let cm = count * size(m);
    let um = size(m) * unit;
    let rr = size(r) * size(r);
    assert(w >= unit) by (nonlinear_arith)
        requires
            w == n * unit,
            n >= 1,
            unit > 0,
    ;
    assert(unit >= 0x100_0000) by {
        vstd::arithmetic::power2::lemma2_to64();
        vstd::arithmetic::power2::lemma_pow2_strictly_increases(24, 149);
    }
    assert(count <= 2 * w);
    assert(up <= ut) by (nonlinear_arith)
        requires
            up == unit * size(p),
            ut == size(t) * unit,
            size(p) <= size(t),
            unit > 0,
    ;
    assert(unit * (size(p) + 0x80_0000) == up + 0x80_0000 * unit) by (nonlinear_arith)
        requires
            up == unit * size(p),
    ;
    assert(count * (size(m) + 0x80_0000) == cm + 0x80_0000 * count) by (nonlinear_arith)
        requires
            cm == count * size(m),
    ;
    assert(cm <= 2 * (n * um)) by (nonlinear_arith)
        requires
            cm == count * size(m),
            um == size(m) * unit,
            count <= 2 * (n * unit),
            size(m) >= 0,
    ;
    assert(um >= 0 && rr >= 0) by (nonlinear_arith)
        requires
            um == size(m) * unit,
            size(m) >= 0,
            unit > 0,
            rr == size(r) * size(r),
    ;
    lemma_scale_apart(n, rr, um);
}

/// A block with a sample that is not a number has a root mean square that is not
/// one either, wherever the sample stands.
pub proof fn law_no_number_spreads(samples: Seq<Binary32>, i: int)
    requires
        0 <= i < samples.len(),
        samples[i].is_nan(),
    ensures
        root_mean_square(samples) is Some,
        root_mean_square(samples)->0.is_nan(),
{
    lemma_no_number_in_total(samples, i);
}

proof fn lemma_no_number_in_total(samples: Seq<Binary32>, i: int)
    requires
        0 <= i < samples.len(),
        samples[i].is_nan(),
    ensures
        square_sum(samples).is_nan(),
    decreases samples.len(),
{
    if i < samples.len() - 1 {
        lemma_no_number_in_total(samples.drop_last(), i);
    }
}

/// The sum of the squares of signed samples.
pub open spec fn squares(data: Seq<i16>) -> int
    decreases data.len(),
{
    if data.len() == 0 {
        0
    } else {
        squares(data.drop_last()) + data.last() * data.last()
    }
}

/// The sum of the squares of the distances of unsigned samples from the middle.
pub open spec fn squares_from_middle(data: Seq<u16>) -> int
    decreases data.len(),
{
    if data.len() == 0 {
        0
    } else {
        squares_from_middle(data.drop_last()) + (data.last() - 0x8000) * (data.last() - 0x8000)
    }
}

/// A block of signed samples is measured whole: it has an entry for each of them,
/// in their order, and each has the value of its sample on the scale of -1 to 1.
pub proof fn law_signed_block_is_whole(data: Seq<i16>)
    ensures
        signed_samples(data).len() == data.len(),
        forall|i: int|
            0 <= i < data.len() ==> (#[trigger] signed_samples(data)[i]).units() * 0x8000 == data[i]
                * pow2(149),
        all_in_scale(signed_samples(data)),
{
    assert forall|i: int| 0 <= i < data.len() implies (#[trigger] signed_samples(data)[i]).units()
        * 0x8000 == data[i] * pow2(149) && signed_samples(data)[i].magnitude() <= ONE by {
        law_signed_samples_scale_exactly(data[i]);
    }
}

/// A block of unsigned samples is measured whole.
pub proof fn law_unsigned_block_is_whole(data: Seq<u16>)
    ensures
        unsigned_samples(data).len() == data.len(),
        forall|i: int|
            0 <= i < data.len() ==> (#[trigger] unsigned_samples(data)[i]).units() * 0x8000 == (
            data[i] - 0x8000) * pow2(149),
        all_in_scale(unsigned_samples(data)),
{
    assert forall|i: int| 0 <= i < data.len() implies (#[trigger] unsigned_samples(data)[i]).units()
        * 0x8000 == (data[i] - 0x8000) * pow2(149) && unsigned_samples(data)[i].magnitude()
        <= ONE by {
        law_unsigned_samples_scale_exactly(data[i]);
    }
}

/// The square of a scaled sample.
proof fn lemma_scaled_square(u: int, d: int)
    requires
        u * 0x8000 == d * pow2(149),
    ensures
        0x4000_0000 * (u * u) == (d * d) * (pow2(149) * pow2(149)),
{
    let unit = pow2(149) as int;
    assert(0x4000_0000 * (u * u) == (u * 0x8000) * (u * 0x8000)) by (nonlinear_arith);
    assert((d * unit) * (d * unit) == (d * d) * (unit * unit)) by (nonlinear_arith);
}

proof fn lemma_signed_squares(data: Seq<i16>)
    ensures
        0x4000_0000 * exact_squares(signed_samples(data)) == squares(data) * (pow2(149) * pow2(
            149,
        )),
        squares(data) >= 0,
    decreases data.len(),
{
    let unit = pow2(149) as int;
    if data.len() > 0 {
        let shorter = data.drop_last();
        lemma_signed_squares(shorter);
        law_signed_block_is_whole(data);
        let n = data.len() as int;
        assert(signed_samples(data).drop_last() =~= signed_samples(shorter));
        let u = signed_samples(data)[n - 1].units();
        let d = data[n - 1] as int;
        lemma_scaled_square(u, d);
        assert(d * d >= 0) by (nonlinear_arith);
        assert((squares(shorter) + d * d) * (unit * unit) == squares(shorter) * (unit * unit) + (d
            * d) * (unit * unit)) by (nonlinear_arith);
    }
}

proof fn lemma_unsigned_squares(data: Seq<u16>)
    ensures
        0x4000_0000 * exact_squares(unsigned_samples(data)) == squares_from_middle(data) * (pow2(
            149,
        ) * pow2(149)),
        squares_from_middle(data) >= 0,
    decreases data.len(),
{
    let unit = pow2(149) as int;
    if data.len() > 0 {
        let shorter = data.drop_last();
        lemma_unsigned_squares(shorter);
        law_unsigned_block_is_whole(data);
        let n = data.len() as int;
        assert(unsigned_samples(data).drop_last() =~= unsigned_samples(shorter));
        let u = unsigned_samples(data)[n - 1].units();
        let d = data[n - 1] - 0x8000;
        lemma_scaled_square(u, d);
        assert(d * d >= 0) by (nonlinear_arith);
        assert((squares_from_middle(shorter) + d * d) * (unit * unit) == squares_from_middle(
            shorter,
        ) * (unit * unit) + (d * d) * (unit * unit)) by (nonlinear_arith);
    }
}

/// The unit is far larger than any count of samples.
proof fn lemma_unit_is_large(n: int)
    requires
        0 <= n <= usize::MAX,
    ensures
        pow2(149) >= 0x100_0000_0000_0000 * n,
        pow2(149) >= 0x8000_0000_0000_0000_0000_0000,
{
    vstd::arithmetic::power2::lemma2_to64();
    lemma_pow2_adds(64, 85);
    lemma_pow2_adds(64, 21);
}

/// The root mean square of signed samples is accurate: `n` times its square is
/// the sum of the squares of the samples, on the scale of 32768, up to `n + 10`
/// parts in 2^22.
pub proof fn law_signed_level_is_accurate(data: Seq<i16>)
    requires
        0 < data.len() <= 0x40_0000,
    ensures
        root_mean_square(signed_samples(data)) is Some,
        ({
            let n = data.len() as int;
            let r = root_mean_square(signed_samples(data))->0.units();
            let exact = squares(data) * (pow2(149) * pow2(149));
            &&& r >= 0
            &&& 0x40_0000 * apart(0x4000_0000 * (n * (r * r)), exact) <= (n + 10) * exact
        }),
{
    let samples = signed_samples(data);
    law_signed_block_is_whole(data);
    lemma_signed_squares(data);
    assert(0x40_0000 <= usize::MAX);
    let t = lemma_in_scale(samples);
    lemma_with_sign(false, t);
    law_root_mean_square_is_accurate(samples);
    if squares(data) == 0 {
        assert forall|i: int| 0 <= i < samples.len() implies (#[trigger] samples[i]).magnitude()
            == 0 by {
            lemma_no_squares(data, i);
            lemma_no_value(samples[i]);
        }
        law_silence_is_black(samples);
    }
    lemma_scaled_accuracy(
        data.len() as int,
        root_mean_square(samples)->0.units(),
        exact_squares(samples),
        squares(data),
    );
}

/// The root mean square of unsigned samples is accurate.
pub proof fn law_unsigned_level_is_accurate(data: Seq<u16>)
    requires
        0 < data.len() <= 0x40_0000,
    ensures
        root_mean_square(unsigned_samples(data)) is Some,
        ({
            let n = data.len() as int;
            let r = root_mean_square(unsigned_samples(data))->0.units();
            let exact = squares_from_middle(data) * (pow2(149) * pow2(149));
            &&& r >= 0
            &&& 0x40_0000 * apart(0x4000_0000 * (n * (r * r)), exact) <= (n + 10) * exact
        }),
{
    let samples = unsigned_samples(data);
    law_unsigned_block_is_whole(data);
    lemma_unsigned_squares(data);
    assert(0x40_0000 <= usize::MAX);
    let t = lemma_in_scale(samples);
    lemma_with_sign(false, t);
    law_root_mean_square_is_accurate(samples);
    if squares_from_middle(data) == 0 {
        assert forall|i: int| 0 <= i < samples.len() implies (#[trigger] samples[i]).magnitude()
            == 0 by {
            lemma_no_squares_from_middle(data, i);
            lemma_no_value(samples[i]);
        }
        law_silence_is_black(samples);
    }
    lemma_scaled_accuracy(
        data.len() as int,
        root_mean_square(samples)->0.units(),
        exact_squares(samples),
        squares_from_middle(data),
    );
}

proof fn lemma_scaled_accuracy(n: int, r: int, a: int, s: int)
    requires
        0 < n <= 0x40_0000,
        s >= 0,
        r >= 0,
        s == 0 ==> r <= 0,
        0x4000_0000 * a == s * (pow2(149) * pow2(149)),
        0x40_0000 * apart(n * (r * r), a) <= (n + 9) * a + 0xC0_0000 * (n * pow2(149)),
    ensures
        0x40_0000 * apart(0x4000_0000 * (n * (r * r)), s * (pow2(149) * pow2(149))) <= (n + 10) * (s
            * (pow2(149) * pow2(149))),
{
    let unit = pow2(149) as int;
    assert(0x40_0000 <= usize::MAX);
    lemma_unit_is_large(n);
    let v = unit * unit;
    let exact = s * v;
    if s == 0 {
        assert(n * (r * r) == 0 && s * v == 0 && (n + 10) * (s * v) == 0) by (nonlinear_arith)
            requires
                r == 0,
                s == 0,
        ;
    } else {
        assert(0x4000_0000 * (0xC0_0000 * (n * unit)) <= exact) by (nonlinear_arith)
            requires
                exact == s * (unit * unit),
                s >= 1,
                unit >= 0x100_0000_0000_0000 * n,
                n > 0,
        ;
        assert((n + 10) * exact == (n + 9) * exact + exact) by (nonlinear_arith);
        assert(0x4000_0000 * ((n + 9) * a) == (n + 9) * exact) by (nonlinear_arith)
            requires
                0x4000_0000 * a == exact,
        ;
    }
}

/// A sum of squares of 0 has no square above 0.
proof fn lemma_no_squares(data: Seq<i16>, i: int)
    requires
        squares(data) == 0,
        0 <= i < data.len(),
    ensures
        data[i] == 0,
    decreases data.len(),
{
    let shorter = data.drop_last();
    lemma_signed_squares(shorter);
    let d = data.last() as int;
    assert(d * d >= 0 && (d * d == 0 ==> d == 0)) by (nonlinear_arith);
    if i < data.len() - 1 {
        lemma_no_squares(shorter, i);
    }
}

proof fn lemma_no_squares_from_middle(data: Seq<u16>, i: int)
    requires
        squares_from_middle(data) == 0,
        0 <= i < data.len(),
    ensures
        data[i] == 0x8000,
    decreases data.len(),
{
    let shorter = data.drop_last();
    lemma_unsigned_squares(shorter);
    let d = data.last() - 0x8000;
    assert(d * d >= 0 && (d * d == 0 ==> d == 0)) by (nonlinear_arith);
    if i < data.len() - 1 {
        lemma_no_squares_from_middle(shorter, i);
    }
}

/// A number with the value 0 has the pattern 0.
proof fn lemma_no_value(a: Binary32)
    requires
        a.units() * 0x8000 == 0 * pow2(149),
    ensures
        a.magnitude() == 0,
{
    lemma_size_zero();
    if a.magnitude() > 0 {
        lemma_size_increases(0, a.magnitude());
    }
}

/// No sample of a block of signed samples is lost, however long the block and
/// wherever it stands: one that is not 0 leaves a root mean square above 0, whose
/// square is at least the `4 n`-th part of that of the sample.
pub proof fn law_every_signed_sample_counts(data: Seq<i16>, i: int)
    requires
        0 <= i < data.len() <= usize::MAX,
        data[i] != 0,
    ensures
        root_mean_square(signed_samples(data)) is Some,
        ({
            let r = root_mean_square(signed_samples(data))->0.units();
            &&& r > 0
            &&& 4 * (data.len() * (0x4000_0000 * (r * r))) >= (data[i] * data[i]) * (pow2(149)
                * pow2(149))
        }),
{
    law_signed_block_is_whole(data);
    lemma_sample_counts(signed_samples(data), i, data[i] as int);
}

/// No sample of a block of unsigned samples is lost.
pub proof fn law_every_unsigned_sample_counts(data: Seq<u16>, i: int)
    requires
        0 <= i < data.len() <= usize::MAX,
        data[i] != 0x8000,
    ensures
        root_mean_square(unsigned_samples(data)) is Some,
        ({
            let r = root_mean_square(unsigned_samples(data))->0.units();
            let d = data[i] - 0x8000;
            &&& r > 0
            &&& 4 * (data.len() * (0x4000_0000 * (r * r))) >= (d * d) * (pow2(149) * pow2(149))
        }),
{
    law_unsigned_block_is_whole(data);
    lemma_sample_counts(unsigned_samples(data), i, data[i] - 0x8000);
}

proof fn lemma_sample_counts(samples: Seq<Binary32>, i: int, d: int)
    requires
        0 <= i < samples.len() <= usize::MAX,
        all_in_scale(samples),
        d != 0,
        samples[i].units() * 0x8000 == d * pow2(149),
    ensures
        root_mean_square(samples) is Some,
        ({
            let r = root_mean_square(samples)->0.units();
            &&& r > 0
            &&& 4 * (samples.len() * (0x4000_0000 * (r * r))) >= (d * d) * (pow2(149) * pow2(149))
        }),
{
    let unit = pow2(149) as int;
    let n = samples.len() as int;
    let u = samples[i].units();
    lemma_unit_is_large(n);
    lemma_scaled_square(u, d);
    let v = unit * unit;
    let uu = u * u;
    assert(uu >= 0x400_0000 * (n * unit) && (d * d) * v > 0) by (nonlinear_arith)
        requires
            0x4000_0000 * uu == (d * d) * v,
            v == unit * unit,
            d != 0,
            unit >= 0x100_0000_0000_0000 * n,
            n >= 1,
    ;
    law_every_sample_counts(samples, i);
    law_full_scale(samples);
    let r = root_mean_square(samples)->0.units();
    let rr = r * r;
    assert(n * (0x4000_0000 * rr) == 0x4000_0000 * (n * rr)) by (nonlinear_arith);
    if r == 0 {
        assert(n * rr == 0) by (nonlinear_arith)
            requires
                rr == r * r,
                r == 0,
        ;
    }
}

} // verus!

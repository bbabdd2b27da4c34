//! What the operations on numbers are for: each gives the number closest to the
//! exact result.
//!
//! Values are counted in units of 2^-149, of which every number is a whole
//! multiple. The infinities count as plus and minus 2^128, so that a result
//! beyond the largest finite number is closest to one of them.
use crate::binary32::{
    byte, difference, larger, less, nearest, nearest_root, product, quotient, root, smaller, sum,
    whole, with_sign, Binary32,
};
use crate::order::{
    lemma_nearest_defined, lemma_nearest_root_defined, lemma_nearest_zero, lemma_order,
    lemma_size_order, lemma_with_sign,
};
use crate::rounding::{lemma_size_increases, lemma_size_zero, size, INFINITY};
use vstd::arithmetic::power2::{lemma_pow2_pos, pow2};
use vstd::prelude::*;

verus! {

/// How far two values are apart.
pub open spec fn apart(a: int, b: int) -> int {
    if a < b {
        b - a
    } else {
        a - b
    }
}

/// The number is finite.
pub open spec fn finite(a: Binary32) -> bool {
    !a.is_nan() && !a.is_infinite()
}

/// The value of a number, from the fields of its pattern: a sign, an exponent of
/// 8 bits and a fraction of 23 bits.
pub proof fn law_value_of_pattern(a: Binary32)
    ensures
        ({
            let exponent = (a.bits as int / 0x80_0000) % 256;
            let fraction = a.bits as int % 0x80_0000;
            let value = if exponent == 0 {
                fraction
            } else {
                (0x80_0000 + fraction) * pow2((exponent - 1) as nat)
            };
            &&& a.units() == if a.bits >= 0x8000_0000 {
                -value
            } else {
                value
            }
            &&& a.is_nan() <==> exponent == 255 && fraction != 0
            &&& a.is_infinite() <==> exponent == 255 && fraction == 0
        }),
{
    reveal(size);
    let m = a.magnitude();
    assert(m / 0x80_0000 == (a.bits as int / 0x80_0000) % 256);
    assert(m % 0x80_0000 == a.bits as int % 0x80_0000);
}

/// No pattern is closer to a ratio than the nearest one, and where another is as
/// close the nearest one is even.
proof fn lemma_closest(num: int, den: int, c: int)
    requires
        num >= 0,
        den > 0,
        0 <= c <= INFINITY,
    ensures
        ({
            let r = nearest(num, den);
            &&& apart(den * size(r), num) <= apart(den * size(c), num)
            &&& c != r && apart(den * size(r), num) == apart(den * size(c), num) ==> r % 2 == 0
        }),
{
    let r = nearest(num, den);
    lemma_nearest_defined(num, den);
    if c < r {
        lemma_size_order(c, r - 1);
        lemma_size_increases(c, r);
        assert(den * size(c) <= den * size(r - 1) && den * size(c) < den * size(r) && den * (size(
            r - 1,
        ) + size(r)) == den * size(r - 1) + den * size(r)) by (nonlinear_arith)
            requires
                size(c) <= size(r - 1),
                size(c) < size(r),
                den > 0,
        ;
    }
    if r < c {
        lemma_size_order(r + 1, c);
        lemma_size_increases(r, c);
        assert(den * size(r + 1) <= den * size(c) && den * size(r) < den * size(c) && den * (size(r)
            + size(r + 1)) == den * size(r) + den * size(r + 1)) by (nonlinear_arith)
            requires
                size(r + 1) <= size(c),
                size(r) < size(c),
                den > 0,
        ;
    }
}

/// `r` is as close to the value `num / den` as any number `c`, and even where
/// another is as close.
pub open spec fn as_close(r: Binary32, c: Binary32, num: int, den: int) -> bool {
    &&& !r.is_nan()
    &&& apart(den * r.units(), num) <= apart(den * c.units(), num)
    &&& c.units() != r.units() && apart(den * r.units(), num) == apart(den * c.units(), num)
        ==> r.bits % 2 == 0
}

/// The nearest pattern with the sign of a value is the closest number to it.
proof fn lemma_signed_closest(num: int, den: int, negative: bool, c: Binary32)
    requires
        den > 0,
        !c.is_nan(),
        num < 0 ==> negative,
        num > 0 ==> !negative,
    ensures
        as_close(
            with_sign(negative, nearest(if num < 0 {
                -num
            } else {
                num
            }, den)),
            c,
            num,
            den,
        ),
{
    let size_of = if num < 0 {
        -num
    } else {
        num
    };
    let p = nearest(size_of, den);
    let r = with_sign(negative, p);
    lemma_nearest_defined(size_of, den);
    lemma_with_sign(negative, p);
    let m = c.magnitude();
    lemma_closest(size_of, den, m);
    lemma_closest(size_of, den, 0);
    lemma_size_zero();
    lemma_size_order(0, m);
    lemma_size_order(0, p);
    let x = den * size(p);
    let y = den * size(m);
    assert(den * (-size(p)) == -x && den * (-size(m)) == -y && den * size(0) == 0 && 0 <= x && 0
        <= y) by (nonlinear_arith)
        requires
            x == den * size(p),
            y == den * size(m),
            size(0) == 0,
            size(p) >= 0,
            size(m) >= 0,
            den > 0,
    ;
    if num == 0 {
        lemma_nearest_zero(den);
    }
    if m > 0 {
        lemma_size_increases(0, m);
        assert(y > 0) by (nonlinear_arith)
            requires
                y == den * size(m),
                size(m) > 0,
                den > 0,
        ;
    }
    assert(r.bits % 2 == p % 2);
}

/// The sum is the number closest to the exact sum, and has its sign; a sum of 0
/// is negative where both numbers are.
pub proof fn law_sum_is_closest(a: Binary32, b: Binary32, c: Binary32)
    requires
        finite(a),
        finite(b),
        !c.is_nan(),
    ensures
        as_close(sum(a, b), c, a.units() + b.units(), 1),
        a.units() + b.units() < 0 ==> sum(a, b).negative(),
        a.units() + b.units() > 0 ==> !sum(a, b).negative(),
        a.units() + b.units() == 0 ==> (sum(a, b).negative() <==> a.negative() && b.negative()),
{
    let total = a.units() + b.units();
    let negative = if total == 0 {
        a.negative() && b.negative()
    } else {
        total < 0
    };
    lemma_signed_closest(total, 1, negative, c);
    let size_of = if total < 0 {
        -total
    } else {
        total
    };
    lemma_nearest_defined(size_of, 1);
    lemma_with_sign(negative, nearest(size_of, 1));
    if total == 0 {
        lemma_nearest_zero(1);
    }
}

/// The difference is the number closest to the exact difference.
pub proof fn law_difference_is_closest(a: Binary32, b: Binary32, c: Binary32)
    requires
        finite(a),
        finite(b),
        !c.is_nan(),
    ensures
        as_close(difference(a, b), c, a.units() - b.units(), 1),
{
    lemma_with_sign(!b.negative(), b.magnitude());
    law_sum_is_closest(a, b.opposite(), c);
}

/// The product is the number closest to the exact product, with the sign of it.
pub proof fn law_product_is_closest(a: Binary32, b: Binary32, c: Binary32)
    requires
        finite(a),
        finite(b),
        !c.is_nan(),
    ensures
        as_close(product(a, b), c, a.units() * b.units(), pow2(149) as int),
        product(a, b).negative() <==> a.negative() != b.negative(),
{
    let x = size(a.magnitude());
    let y = size(b.magnitude());
    lemma_pow2_pos(149);
    lemma_size_order(0, a.magnitude());
    lemma_size_order(0, b.magnitude());
    let num = a.units() * b.units();
    let negative = a.negative() != b.negative();
    assert(x * y >= 0 && (-x) * y == -(x * y) && x * (-y) == -(x * y) && (-x) * (-y) == x * y)
        by (nonlinear_arith)
        requires
            x >= 0,
            y >= 0,
    ;
    lemma_signed_closest(num, pow2(149) as int, negative, c);
    lemma_nearest_defined(x * y, pow2(149) as int);
    lemma_with_sign(negative, nearest(x * y, pow2(149) as int));
}

/// The quotient is the number closest to the exact quotient, with the sign of it.
pub proof fn law_quotient_is_closest(a: Binary32, b: Binary32, c: Binary32)
    requires
        finite(a),
        finite(b),
        b.units() != 0,
        !c.is_nan(),
    ensures
        !quotient(a, b).is_nan(),
        apart(b.units() * quotient(a, b).units(), a.units() * pow2(149)) <= apart(
            b.units() * c.units(),
            a.units() * pow2(149),
        ),
        b.units() > 0 ==> as_close(quotient(a, b), c, a.units() * pow2(149), b.units()),
        b.units() < 0 ==> as_close(quotient(a, b), c, -(a.units() * pow2(149)), -b.units()),
        quotient(a, b).negative() <==> a.negative() != b.negative(),
{
    let unit = pow2(149) as int;
    let x = size(a.magnitude());
    let y = size(b.magnitude());
    lemma_pow2_pos(149);
    lemma_size_zero();
    lemma_size_order(0, a.magnitude());
    lemma_size_order(0, b.magnitude());
    let negative = a.negative() != b.negative();
    let num = if negative {
        -(x * unit)
    } else {
        x * unit
    };
    assert(x * unit >= 0 && (-x) * unit == -(x * unit)) by (nonlinear_arith)
        requires
            x >= 0,
            unit > 0,
    ;
    lemma_signed_closest(num, y, negative, c);
    let q = quotient(a, b);
    lemma_nearest_defined(x * unit, y);
    lemma_with_sign(negative, nearest(x * unit, y));
    assert((-y) * q.units() == -(y * q.units()) && (-y) * c.units() == -(y * c.units()))
        by (nonlinear_arith);
}

/// The square root is the number closest to the exact root: the midpoint to any
/// smaller number lies at the root or below it, the midpoint to any larger one at
/// the root or above it.
pub proof fn law_root_is_closest(a: Binary32, c: Binary32)
    requires
        finite(a),
        a.units() >= 0,
        !c.is_nan(),
        c.units() >= 0,
    ensures
        !root(a).is_nan(),
        root(a).units() >= 0,
        c.units() < root(a).units() ==> (c.units() + root(a).units()) * (c.units() + root(
            a,
        ).units()) <= 4 * (a.units() * pow2(149)),
        c.units() > root(a).units() ==> 4 * (a.units() * pow2(149)) <= (c.units() + root(
            a,
        ).units()) * (c.units() + root(a).units()),
{
    let unit = pow2(149) as int;
    lemma_pow2_pos(149);
    lemma_size_zero();
    lemma_order(a, Binary32 { bits: 0 });
    lemma_order(c, Binary32 { bits: 0 });
    let m = a.magnitude();
    let k = c.magnitude();
    lemma_size_order(0, m);
    lemma_size_order(0, k);
    assert(a.units() == size(m) && c.units() == size(k));
    if m == 0 {
        let v = c.units() + root(a).units();
        assert(root(a) == a && a.units() == 0);
        assert(v * v >= 0) by (nonlinear_arith);
        assert(a.units() * unit == 0) by (nonlinear_arith)
            requires
                a.units() == 0,
        ;
    } else {
        let n = size(m) * unit;
        assert(n >= 0) by (nonlinear_arith)
            requires
                n == size(m) * unit,
                size(m) >= 0,
                unit > 0,
        ;
        lemma_nearest_root_defined(n);
        let r = nearest_root(n);
        lemma_with_sign(false, r);
        lemma_size_order(0, r);
        let v = size(k) + size(r);
        assert(root(a).units() == size(r));
        if k < r {
            lemma_size_order(k, r);
            lemma_size_order(k, r - 1);
            let w = size(r - 1) + size(r);
            assert(v * v <= w * w) by (nonlinear_arith)
                requires
                    0 <= v <= w,
            ;
        } else if r < k {
            lemma_size_order(r, k);
            lemma_size_order(r + 1, k);
            let w = size(r) + size(r + 1);
            lemma_size_order(0, r + 1);
            assert(w * w <= v * v) by (nonlinear_arith)
                requires
                    0 <= w <= v,
            ;
        }
    }
}

/// A whole number becomes the number closest to it.
pub proof fn law_whole_is_closest(n: int, c: Binary32)
    requires
        !c.is_nan(),
    ensures
        as_close(whole(n), c, n * pow2(149), 1),
        whole(n).negative() <==> n < 0,
{
    let unit = pow2(149) as int;
    lemma_pow2_pos(149);
    assert((-n) * unit == -(n * unit) && (n >= 0 ==> n * unit >= 0) && (n < 0 ==> n * unit < 0))
        by (nonlinear_arith)
        requires
            unit > 0,
    ;
    lemma_signed_closest(n * unit, 1, n < 0, c);
    let size_of = if n < 0 {
        -n * unit
    } else {
        n * unit
    };
    lemma_nearest_defined(size_of, 1);
    lemma_with_sign(n < 0, nearest(size_of, 1));
}

/// When there is no result that is a number, and what comes of the infinities.
pub proof fn law_exceptional_results(a: Binary32, b: Binary32)
    ensures
        sum(a, b).is_nan() <==> a.is_nan() || b.is_nan() || (a.is_infinite() && b.is_infinite()
            && a.negative() != b.negative()),
        difference(a, b).is_nan() <==> a.is_nan() || b.is_nan() || (a.is_infinite()
            && b.is_infinite() && a.negative() == b.negative()),
        product(a, b).is_nan() <==> a.is_nan() || b.is_nan() || (a.is_infinite() && b.magnitude()
            == 0) || (a.magnitude() == 0 && b.is_infinite()),
        quotient(a, b).is_nan() <==> a.is_nan() || b.is_nan() || (a.is_infinite()
            && b.is_infinite()) || (a.magnitude() == 0 && b.magnitude() == 0),
        root(a).is_nan() <==> a.is_nan() || (a.negative() && a.magnitude() != 0),
        !sum(a, b).is_nan() && a.is_infinite() ==> sum(a, b) == a,
        !sum(a, b).is_nan() && b.is_infinite() ==> sum(a, b) == b,
        !product(a, b).is_nan() && (a.is_infinite() || b.is_infinite()) ==> product(
            a,
            b,
        ).is_infinite() && (product(a, b).negative() <==> a.negative() != b.negative()),
        !quotient(a, b).is_nan() && (a.is_infinite() || b.magnitude() == 0) ==> quotient(
            a,
            b,
        ).is_infinite() && (quotient(a, b).negative() <==> a.negative() != b.negative()),
        !quotient(a, b).is_nan() && b.is_infinite() ==> quotient(a, b).magnitude() == 0 && (
        quotient(a, b).negative() <==> a.negative() != b.negative()),
        !root(a).is_nan() && (a.is_infinite() || a.magnitude() == 0) ==> root(a) == a,
{
    let negative = a.negative() != b.negative();
    lemma_with_sign(!b.negative(), b.magnitude());
    lemma_with_sign(negative, INFINITY as int);
    lemma_with_sign(negative, 0);
    lemma_pow2_pos(149);
    if finite(a) && finite(b) {
        law_sum_is_closest(a, b, a);
        law_difference_is_closest(a, b, a);
        law_product_is_closest(a, b, a);
        lemma_size_zero();
        if b.magnitude() > 0 {
            lemma_size_increases(0, b.magnitude());
            law_quotient_is_closest(a, b, a);
        }
    }
    if finite(a) && !a.negative() {
        lemma_size_order(0, a.magnitude());
        law_root_is_closest(a, Binary32 { bits: 0 });
    }
}

/// The larger of two numbers has the larger value, and the smaller one the
/// smaller value; where one is not a number, both are the other.
pub proof fn law_larger_and_smaller(a: Binary32, b: Binary32)
    ensures
        larger(a, b) == a || larger(a, b) == b,
        smaller(a, b) == a || smaller(a, b) == b,
        !a.is_nan() && !b.is_nan() ==> larger(a, b).units() >= a.units() && larger(a, b).units()
            >= b.units(),
        !a.is_nan() && !b.is_nan() ==> smaller(a, b).units() <= a.units() && smaller(a, b).units()
            <= b.units(),
        a.is_nan() ==> larger(a, b) == b && smaller(a, b) == b,
        !a.is_nan() && b.is_nan() ==> larger(a, b) == a && smaller(a, b) == a,
{
}

/// The opposite number has the opposite value, and its opposite is the number
/// itself. One number is less than another where its value is.
pub proof fn law_opposite_and_order(a: Binary32, b: Binary32)
    ensures
        a.opposite().units() == -a.units(),
        a.opposite().opposite() == a,
        a.opposite().is_nan() <==> a.is_nan(),
        less(a, b) <==> !a.is_nan() && !b.is_nan() && a.units() < b.units(),
        less(a, b) <==> less(b.opposite(), a.opposite()),
{
    lemma_with_sign(!a.negative(), a.magnitude());
    lemma_with_sign(!b.negative(), b.magnitude());
}

/// Cutting a number gives the whole number at or just below it, within 0 to 255.
pub proof fn law_cut(a: Binary32)
    ensures
        a.is_nan() || a.units() <= 0 ==> byte(a) == 0,
        !a.is_nan() && 0 <= a.units() < 256 * pow2(149) ==> {
            &&& byte(a) * pow2(149) <= a.units()
            &&& a.units() < (byte(a) + 1) * pow2(149)
        },
        !a.is_nan() && a.units() >= 255 * pow2(149) ==> byte(a) == 255,
{
    let unit = pow2(149) as int;
    lemma_pow2_pos(149);
    lemma_size_zero();
    if !a.is_nan() {
        lemma_order(a, Binary32 { bits: 0 });
        let x = size(a.magnitude());
        lemma_size_order(0, a.magnitude());
        vstd::arithmetic::div_mod::lemma_fundamental_div_mod(x, unit);
        let cut = x / unit;
        assert(unit * cut == cut * unit && (cut + 1) * unit == cut * unit + unit)
            by (nonlinear_arith);
        assert(cut >= 0 && (x < 256 * unit ==> cut <= 255) && (x >= 255 * unit ==> cut >= 255) && (x
            == 0 ==> cut == 0)) by (nonlinear_arith)
            requires
                x == unit * cut + x % unit,
                0 <= x % unit < unit,
                x >= 0,
                unit > 0,
        ;
    }
}

} // verus!

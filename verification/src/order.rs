//! How rounding and the operations behave towards the order of numbers.
use crate::binary32::{
    difference, less, nearest, nearest_root, product, quotient, with_sign, Binary32, SIGN_BIT,
};
use crate::rounding::{
    exponent_of, is_nearest, is_nearest_root, lemma_nearest_monotone, lemma_nearest_unique,
    lemma_size_increases, lemma_size_of_split, lemma_size_zero, lemma_split, size, INFINITY,
};
use vstd::arithmetic::power2::{
    lemma_pow2_pos, lemma_pow2_strictly_increases, lemma_pow2_unfold, pow2,
};
use vstd::prelude::*;

verus! {

/// Walks down from a pattern whose upper midpoint is high enough.
proof fn lemma_search(num: int, den: int, top: int) -> (r: int)
    requires
        num >= 0,
        den > 0,
        0 <= top <= INFINITY,
        top < INFINITY ==> {
            &&& 2 * num <= den * (size(top) + size(top + 1))
            &&& 2 * num == den * (size(top) + size(top + 1)) ==> top % 2 == 0
        },
    ensures
        is_nearest(num, den, r),
    decreases top,
{
    let middle = den * (size(top - 1) + size(top));
    if top == 0 || middle < 2 * num || (middle == 2 * num && top % 2 == 0) {
        top
    } else {
        lemma_search(num, den, top - 1)
    }
}

/// Every value has a nearest pattern: the one that `nearest` names.
pub proof fn lemma_nearest_defined(num: int, den: int)
    requires
        num >= 0,
        den > 0,
    ensures
        is_nearest(num, den, nearest(num, den)),
        0 <= nearest(num, den) <= INFINITY,
{
    let r = lemma_search(num, den, INFINITY as int);
    assert(is_nearest(num, den, r));
}

proof fn lemma_search_root(n: int, top: int) -> (r: int)
    requires
        n >= 0,
        0 <= top <= INFINITY,
        top < INFINITY ==> {
            &&& 4 * n <= (size(top) + size(top + 1)) * (size(top) + size(top + 1))
            &&& 4 * n == (size(top) + size(top + 1)) * (size(top) + size(top + 1)) ==> top % 2 == 0
        },
    ensures
        is_nearest_root(n, r),
    decreases top,
{
    let middle = (size(top - 1) + size(top)) * (size(top - 1) + size(top));
    if top == 0 || middle < 4 * n || (middle == 4 * n && top % 2 == 0) {
        top
    } else {
        lemma_search_root(n, top - 1)
    }
}

/// Every square root has a nearest pattern: the one that `nearest_root` names.
pub proof fn lemma_nearest_root_defined(n: int)
    requires
        n >= 0,
    ensures
        is_nearest_root(n, nearest_root(n)),
        0 <= nearest_root(n) <= INFINITY,
{
    let r = lemma_search_root(n, INFINITY as int);
    assert(is_nearest_root(n, r));
}

/// A larger ratio has a nearest pattern that is no smaller.
pub proof fn lemma_nearest_order(num1: int, den1: int, num2: int, den2: int)
    requires
        num1 >= 0,
        den1 > 0,
        num2 >= 0,
        den2 > 0,
        num1 * den2 <= num2 * den1,
    ensures
        nearest(num1, den1) <= nearest(num2, den2),
{
    lemma_nearest_defined(num1, den1);
    lemma_nearest_defined(num2, den2);
    lemma_nearest_monotone(
        num1,
        den1,
        nearest(num1, den1),
        num2,
        den2,
        nearest(num2, den2),
    );
}

/// A value that some pattern stands for exactly rounds to that pattern.
pub proof fn lemma_nearest_exact(num: int, den: int, r: int)
    requires
        den > 0,
        0 <= r <= INFINITY,
        num == den * size(r),
    ensures
        nearest(num, den) == r,
{
    if r > 0 {
        lemma_size_increases(r - 1, r);
        assert(den * (size(r - 1) + size(r)) < 2 * num) by (nonlinear_arith)
            requires
                size(r - 1) < size(r),
                num == den * size(r),
                den > 0,
        ;
    }
    if r < INFINITY {
        lemma_size_increases(r, r + 1);
        assert(2 * num < den * (size(r) + size(r + 1))) by (nonlinear_arith)
            requires
                size(r) < size(r + 1),
                num == den * size(r),
                den > 0,
        ;
    }
    assert(is_nearest(num, den, r));
    lemma_nearest_unique(num, den, nearest(num, den), r);
}

/// Rounding to a pattern of at most `top` moves a value by at most half the gap
/// above `top`.
pub proof fn lemma_nearest_error(num: int, den: int, top: int)
    requires
        num >= 0,
        den > 0,
        nearest(num, den) <= top < INFINITY,
    ensures
        2 * (num - den * size(nearest(num, den))) <= den * pow2(exponent_of(top) as nat),
        2 * (den * size(nearest(num, den)) - num) <= den * pow2(exponent_of(top) as nat),
{
    let r = nearest(num, den);
    lemma_nearest_defined(num, den);
    lemma_split(r);
    lemma_split(top);
    let gap = pow2(exponent_of(top) as nat) as int;
    let above = pow2(exponent_of(r) as nat) as int;
    if exponent_of(r) < exponent_of(top) {
        lemma_pow2_strictly_increases(exponent_of(r) as nat, exponent_of(top) as nat);
    }
    assert(2 * (num - den * size(r)) <= den * gap) by (nonlinear_arith)
        requires
            2 * num <= den * (size(r) + (size(r) + above)),
            above <= gap,
            den > 0,
    ;
    if r == 0 {
        lemma_size_zero();
        assert(2 * (den * size(r) - num) <= den * gap) by (nonlinear_arith)
            requires
                size(r) == 0,
                num >= 0,
                den > 0,
                gap >= 0,
        ;
    } else {
        lemma_split(r - 1);
        let below = pow2(exponent_of(r - 1) as nat) as int;
        if exponent_of(r - 1) < exponent_of(top) {
            lemma_pow2_strictly_increases(exponent_of(r - 1) as nat, exponent_of(top) as nat);
        }
        assert(2 * (den * size(r) - num) <= den * gap) by (nonlinear_arith)
            requires
                den * ((size(r) - below) + size(r)) <= 2 * num,
                below <= gap,
                den > 0,
        ;
    }
}

/// Nothing rounds to the pattern 0.
pub proof fn lemma_nearest_zero(den: int)
    requires
        den > 0,
    ensures
        nearest(0, den) == 0,
{
    lemma_size_zero();
    assert(den * size(0) == 0) by (nonlinear_arith)
        requires
            size(0) == 0,
    ;
    lemma_nearest_exact(0, den, 0);
}

/// A number's place in the order of numbers, by its bit pattern alone.
pub open spec fn place(a: Binary32) -> int {
    if a.negative() {
        -a.magnitude()
    } else {
        a.magnitude()
    }
}

/// Numbers are ordered as their signed bit patterns are.
pub proof fn lemma_order(a: Binary32, b: Binary32)
    ensures
        a.units() < b.units() <==> place(a) < place(b),
        a.units() == b.units() <==> place(a) == place(b),
        less(a, b) <==> !a.is_nan() && !b.is_nan() && place(a) < place(b),
{
    let x = a.magnitude();
    let y = b.magnitude();
    lemma_size_zero();
    if x < y {
        lemma_size_increases(x, y);
    }
    if y < x {
        lemma_size_increases(y, x);
    }
    if 0 < x {
        lemma_size_increases(0, x);
    }
    if 0 < y {
        lemma_size_increases(0, y);
    }
}

/// A sign and a pattern put together are the sign and the pattern of the number.
pub proof fn lemma_with_sign(negative: bool, magnitude: int)
    requires
        0 <= magnitude < SIGN_BIT,
    ensures
        with_sign(negative, magnitude).negative() == negative,
        with_sign(negative, magnitude).magnitude() == magnitude,
{
}

/// The difference of a number and one that is no larger, as a pattern.
pub proof fn lemma_difference(a: Binary32, b: Binary32)
    requires
        a.magnitude() < INFINITY,
        b.magnitude() < INFINITY,
        b.units() <= a.units(),
        b.negative() || !a.negative(),
    ensures
        difference(a, b) == with_sign(false, nearest(a.units() - b.units(), 1)),
        0 <= nearest(a.units() - b.units(), 1) <= INFINITY,
{
    lemma_with_sign(!b.negative(), b.magnitude());
    assert(b.opposite().units() == -b.units());
    let total = a.units() - b.units();
    lemma_nearest_defined(total, 1);
    if total == 0 {
        lemma_nearest_zero(1);
    }
}

/// The quotient of two numbers that are not negative, as a pattern.
pub proof fn lemma_quotient(a: int, b: int)
    requires
        0 <= a < INFINITY,
        0 < b < INFINITY,
    ensures
        quotient(with_sign(false, a), with_sign(false, b)) == with_sign(
            false,
            nearest(size(a) * pow2(149), size(b)),
        ),
        0 <= nearest(size(a) * pow2(149), size(b)) <= INFINITY,
        size(a) * pow2(149) >= 0,
        size(b) > 0,
{
    lemma_size_increases(0, b);
    lemma_size_order(0, a);
    lemma_pow2_pos(149);
    let unit = pow2(149) as int;
    assert(size(a) * unit >= 0) by (nonlinear_arith)
        requires
            size(a) >= 0,
            unit > 0,
    ;
    lemma_nearest_defined(size(a) * unit, size(b));
}

/// The product of two numbers that are not negative, as a pattern.
pub proof fn lemma_product(a: int, b: int)
    requires
        0 <= a < INFINITY,
        0 <= b < INFINITY,
    ensures
        product(with_sign(false, a), with_sign(false, b)) == with_sign(
            false,
            nearest(size(a) * size(b), pow2(149) as int),
        ),
        0 <= nearest(size(a) * size(b), pow2(149) as int) <= INFINITY,
        size(a) * size(b) >= 0,
{
    lemma_size_order(0, a);
    lemma_size_order(0, b);
    lemma_pow2_pos(149);
    assert(size(a) * size(b) >= 0) by (nonlinear_arith)
        requires
            size(a) >= 0,
            size(b) >= 0,
    ;
    lemma_nearest_defined(size(a) * size(b), pow2(149) as int);
}

/// Sizes keep the order of patterns.
pub proof fn lemma_size_order(a: int, b: int)
    requires
        0 <= a <= b,
    ensures
        0 <= size(a) <= size(b),
{
    lemma_size_zero();
    if a < b {
        lemma_size_increases(a, b);
    } else if 0 < a {
        lemma_size_increases(0, a);
    }
}

/// The whole part of a pattern grows with it.
pub proof fn lemma_cut_order(a: int, b: int)
    requires
        0 <= a <= b,
    ensures
        0 <= size(a) / pow2(149) as int <= size(b) / pow2(149) as int,
{
    lemma_size_order(a, b);
    lemma_pow2_pos(149);
    let unit = pow2(149) as int;
    vstd::arithmetic::div_mod::lemma_div_is_ordered(size(a), size(b), unit);
    vstd::arithmetic::div_mod::lemma_div_pos_is_pos(size(a), unit);
}

/// Some pattern stands for a number of at most 24 digits, whatever its
/// exponent.
pub proof fn lemma_representable(d: int, g: int) -> (r: int)
    requires
        0 <= d < 0x100_0000,
        0 <= g <= 253,
    ensures
        0 <= r < INFINITY,
        size(r) == d * pow2(g as nat),
    decreases g,
{
    if d >= 0x80_0000 || g == 0 {
        lemma_size_of_split(g, d);
        g * 0x80_0000 + d
    } else {
        lemma_pow2_unfold(g as nat);
        let p = pow2((g - 1) as nat) as int;
        assert((2 * d) * p == d * (2 * p)) by (nonlinear_arith);
        lemma_representable(2 * d, g - 1)
    }
}

/// Multiplying both sides of a ratio changes nothing.
pub proof fn lemma_same_ratio(num: int, den: int, k: int)
    requires
        num >= 0,
        den > 0,
        k > 0,
    ensures
        nearest(num * k, den * k) == nearest(num, den),
{
    assert(num * k >= 0 && den * k > 0 && num * k * den == num * (den * k)) by (nonlinear_arith)
        requires
            num >= 0,
            den > 0,
            k > 0,
    ;
    lemma_nearest_order(num * k, den * k, num, den);
    lemma_nearest_order(num, den, num * k, den * k);
}

} // verus!

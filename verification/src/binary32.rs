//! Single-precision arithmetic on bit patterns.
//!
//! A [`Binary32`] is a binary32 number of IEEE 754 held as its 32 bits: a sign,
//! an eight-bit exponent and a 23-bit fraction. Each operation returns the
//! number nearest to the exact result, ties to even, as the standard's default
//! rounding asks, and its contract says so in whole numbers.
use crate::rounding::{
    digits_of, encloses, exponent_of, is_nearest, is_nearest_root, lemma_nearest_root_unique,
    lemma_nearest_unique, lemma_size_increases, lemma_size_of_split, lemma_size_zero, lemma_split,
    power_of_two, round_to_nearest, size, INFINITY,
};
use vstd::arithmetic::power2::{
    lemma_pow2_adds, lemma_pow2_pos, lemma_pow2_strictly_increases, lemma_pow2_unfold, pow2,
};
use vstd::prelude::*;

verus! {

/// The bit that holds the sign.
pub const SIGN_BIT: u32 = 0x8000_0000;

/// A single-precision number, as its bit pattern.
#[derive(Clone, Copy, Debug)]
pub struct Binary32 {
    pub bits: u32,
}

/// The pattern of the quiet "not a number" that invalid operations return.
pub const QUIET_NAN: u32 = 0x7FC0_0000;

/// The result of an invalid operation.
pub open spec fn invalid() -> Binary32 {
    Binary32 { bits: QUIET_NAN }
}

/// The number with a sign and the pattern of its absolute value.
pub open spec fn with_sign(negative: bool, magnitude: int) -> Binary32 {
    Binary32 {
        bits: (if negative {
            magnitude + SIGN_BIT
        } else {
            magnitude
        }) as u32,
    }
}

/// The pattern nearest to `num / den` units of 2^-149.
pub open spec fn nearest(num: int, den: int) -> int {
    choose|r: int| is_nearest(num, den, r)
}

/// The pattern nearest to the square root of `n` units of 2^-149.
pub open spec fn nearest_root(n: int) -> int {
    choose|r: int| is_nearest_root(n, r)
}

/// The exact sum, rounded.
pub open spec fn sum(a: Binary32, b: Binary32) -> Binary32 {
    if a.is_nan() || b.is_nan() {
        invalid()
    } else if a.is_infinite() {
        if b.is_infinite() && a.negative() != b.negative() {
            invalid()
        } else {
            a
        }
    } else if b.is_infinite() {
        b
    } else {
        let total = a.units() + b.units();
        if total == 0 {
            with_sign(a.negative() && b.negative(), 0)
        } else if total < 0 {
            with_sign(true, nearest(-total, 1))
        } else {
            with_sign(false, nearest(total, 1))
        }
    }
}

/// The exact difference, rounded.
pub open spec fn difference(a: Binary32, b: Binary32) -> Binary32 {
    sum(a, b.opposite())
}

/// The exact product, rounded.
pub open spec fn product(a: Binary32, b: Binary32) -> Binary32 {
    let negative = a.negative() != b.negative();
    if a.is_nan() || b.is_nan() {
        invalid()
    } else if a.is_infinite() || b.is_infinite() {
        if a.magnitude() == 0 || b.magnitude() == 0 {
            invalid()
        } else {
            with_sign(negative, INFINITY as int)
        }
    } else {
        with_sign(
            negative,
            nearest(size(a.magnitude()) * size(b.magnitude()), pow2(149) as int),
        )
    }
}

/// The exact quotient, rounded.
pub open spec fn quotient(a: Binary32, b: Binary32) -> Binary32 {
    let negative = a.negative() != b.negative();
    if a.is_nan() || b.is_nan() || (a.is_infinite() && b.is_infinite()) {
        invalid()
    } else if a.magnitude() == 0 && b.magnitude() == 0 {
        invalid()
    } else if a.is_infinite() || b.magnitude() == 0 {
        with_sign(negative, INFINITY as int)
    } else if b.is_infinite() {
        with_sign(negative, 0)
    } else {
        with_sign(negative, nearest(size(a.magnitude()) * pow2(149), size(b.magnitude())))
    }
}

/// The exact square root, rounded.
pub open spec fn root(a: Binary32) -> Binary32 {
    if a.is_nan() {
        invalid()
    } else if a.magnitude() == 0 {
        a
    } else if a.negative() {
        invalid()
    } else if a.is_infinite() {
        a
    } else {
        with_sign(false, nearest_root(size(a.magnitude()) * pow2(149)))
    }
}

/// The whole number `n`, rounded.
pub open spec fn whole(n: int) -> Binary32 {
    if n < 0 {
        with_sign(true, nearest(-n * pow2(149), 1))
    } else {
        with_sign(false, nearest(n * pow2(149), 1))
    }
}

/// The number cut to a whole number of 0 to 255: what is below 0, or is not a
/// number, becomes 0, and what is above 255 becomes 255.
pub open spec fn byte(a: Binary32) -> u8 {
    if a.is_nan() || a.negative() {
        0
    } else {
        let cut = size(a.magnitude()) / pow2(149) as int;
        if cut > 255 {
            255
        } else {
            cut as u8
        }
    }
}

/// `a` is less than `b`; never so where one is not a number.
pub open spec fn less(a: Binary32, b: Binary32) -> bool {
    !a.is_nan() && !b.is_nan() && a.units() < b.units()
}

/// The larger of two numbers: the other one where one is not a number, the
/// first one where they are equal.
pub open spec fn larger(a: Binary32, b: Binary32) -> Binary32 {
    if a.is_nan() || less(a, b) {
        b
    } else {
        a
    }
}

/// The smaller of two numbers: the other one where one is not a number, the
/// first one where they are equal.
pub open spec fn smaller(a: Binary32, b: Binary32) -> Binary32 {
    if a.is_nan() || less(b, a) {
        b
    } else {
        a
    }
}

impl Binary32 {
    /// The pattern of the absolute value.
    pub open spec fn magnitude(self) -> int {
        (self.bits % SIGN_BIT) as int
    }

    /// The sign bit is set.
    pub open spec fn negative(self) -> bool {
        self.bits >= SIGN_BIT
    }

    /// The pattern stands for no number.
    pub open spec fn is_nan(self) -> bool {
        self.magnitude() > INFINITY
    }

    /// The pattern stands for an infinity.
    pub open spec fn is_infinite(self) -> bool {
        self.magnitude() == INFINITY
    }

    /// The value in units of 2^-149, with the infinities as plus and minus
    /// 2^128.
    pub open spec fn units(self) -> int {
        if self.negative() {
            -size(self.magnitude())
        } else {
            size(self.magnitude())
        }
    }

    /// The number with the other sign.
    pub open spec fn opposite(self) -> Binary32 {
        with_sign(!self.negative(), self.magnitude())
    }
}

/// The nearest pattern is the only one that is nearest.
proof fn lemma_is_the_nearest(num: int, den: int, r: int)
    requires
        den > 0,
        is_nearest(num, den, r),
    ensures
        nearest(num, den) == r,
{
    lemma_nearest_unique(num, den, nearest(num, den), r);
}

/// An enclosed value is the nearest to the ratio that it stands for.
pub proof fn lemma_enclosed_is_nearest(m: int, e: int, inexact: bool, r: int, num: int, den: int)
    requires
        den > 0,
        r <= INFINITY,
        encloses(m, e, inexact, r),
        !inexact ==> m * pow2((e + 200) as nat) * den == num * pow2(200),
        inexact ==> m * pow2((e + 200) as nat) * den < num * pow2(200),
        inexact ==> num * pow2(200) < (m + 1) * pow2((e + 200) as nat) * den,
    ensures
        is_nearest(num, den, r),
        nearest(num, den) == r,
{
    let unit = pow2((e + 200) as nat) as int;
    let scale = pow2(200) as int;
    lemma_pow2_pos(200);
    if r > 0 {
        let s = size(r - 1) + size(r);
        assert(den * s <= 2 * num && (den * s == 2 * num ==> scale * s == 2 * m * unit && !inexact))
            by (nonlinear_arith)
            requires
                den > 0,
                scale > 0,
                scale * s <= 2 * m * unit,
                !inexact ==> m * unit * den == num * scale,
                inexact ==> m * unit * den < num * scale,
        ;
    }
    if r < INFINITY {
        let s = size(r) + size(r + 1);
        if inexact {
            assert(2 * num < den * s) by (nonlinear_arith)
                requires
                    den > 0,
                    scale > 0,
                    2 * (m + 1) * unit <= scale * s,
                    num * scale < (m + 1) * unit * den,
            ;
        } else {
            assert(2 * num <= den * s && (2 * num == den * s ==> 2 * m * unit == scale * s))
                by (nonlinear_arith)
                requires
                    den > 0,
                    scale > 0,
                    2 * m * unit <= scale * s,
                    m * unit * den == num * scale,
            ;
        }
    }
    lemma_is_the_nearest(num, den, r);
}

/// A much smaller second operand leaves the first one the nearest number.
proof fn lemma_absorbed(r: int, low: int)
    requires
        0 <= low <= r < INFINITY,
        exponent_of(r) >= exponent_of(low) + 27,
    ensures
        is_nearest(size(r) + size(low), 1, r),
        is_nearest(size(r) - size(low), 1, r),
{
    let g = exponent_of(r);
    let d = digits_of(r);
    lemma_split(r);
    lemma_split(low);
    let pg = pow2(g as nat) as int;
    let half = pow2((g - 1) as nat) as int;
    let eighth = pow2((g - 3) as nat) as int;
    lemma_pow2_unfold(g as nat);
    lemma_pow2_unfold((g - 1) as nat);
    lemma_pow2_unfold((g - 2) as nat);
    lemma_pow2_pos((g - 3) as nat);
    assert(pg == 8 * eighth && half == 4 * eighth);
    // The second operand is less than an eighth of the gap above the first.
    let gl = exponent_of(low);
    let pl = pow2(gl as nat) as int;
    assert(size(low) < eighth) by {
        lemma_pow2_adds(24, gl as nat);
        vstd::arithmetic::power2::lemma2_to64();
        if gl + 24 < g - 3 {
            lemma_pow2_strictly_increases((gl + 24) as nat, (g - 3) as nat);
        }
        lemma_pow2_pos(gl as nat);
        assert(digits_of(low) * pl < 0x100_0000 * pl) by (nonlinear_arith)
            requires
                digits_of(low) < 0x100_0000,
                pl > 0,
        ;
    }
    // The gap below is at least half the gap above.
    if d == 0x80_0000 {
        lemma_size_of_split(g - 1, 0xFF_FFFF);
        assert((g - 1) * 0x80_0000 + 0xFF_FFFF == r - 1);
        assert(size(r - 1) == size(r) - half) by (nonlinear_arith)
            requires
                size(r - 1) == 0xFF_FFFF * half,
                size(r) == 0x80_0000 * pg,
                pg == 2 * half,
        ;
    } else {
        lemma_size_of_split(g, d - 1);
        assert(size(r - 1) == size(r) - pg) by (nonlinear_arith)
            requires
                size(r - 1) == (d - 1) * pg,
                size(r) == d * pg,
        ;
    }
}

impl Binary32 {
    /// The number with the given bit pattern.
    pub fn from_bits(bits: u32) -> (r: Binary32)
        ensures
            r == (Binary32 { bits }),
    {
        Binary32 { bits }
    }

    /// The bit pattern of the number.
    pub fn to_bits(self) -> (bits: u32)
        ensures
            bits == self.bits,
    {
        self.bits
    }

    fn signed(negative: bool, magnitude: u32) -> (r: Binary32)
        requires
            magnitude <= INFINITY,
        ensures
            r == with_sign(negative, magnitude as int),
    {
        if negative {
            Binary32 { bits: magnitude + SIGN_BIT }
        } else {
            Binary32 { bits: magnitude }
        }
    }

    fn pattern(self) -> (magnitude: u32)
        ensures
            magnitude == self.magnitude(),
            magnitude < SIGN_BIT,
    {
        self.bits % SIGN_BIT
    }

    fn sign(self) -> (negative: bool)
        ensures
            negative == self.negative(),
    {
        self.bits >= SIGN_BIT
    }

    /// Splits the absolute value of a finite number into digits and exponent.
    fn split(self) -> (r: (u32, u32))
        requires
            self.magnitude() < INFINITY,
        ensures
            r.0 == digits_of(self.magnitude()),
            r.1 == exponent_of(self.magnitude()),
            r.0 < 0x100_0000,
            r.1 <= 253,
            r.1 > 0 ==> r.0 >= 0x80_0000,
            size(self.magnitude()) == r.0 * pow2(r.1 as nat),
            r.0 == 0 <==> self.magnitude() == 0,
    {
        let magnitude: u32 = self.pattern();
        proof {
            lemma_split(magnitude as int);
        }
        let exponent: u32 = magnitude / 0x80_0000;
        if exponent == 0 {
            (magnitude, 0)
        } else {
            (magnitude - (exponent - 1) * 0x80_0000, exponent - 1)
        }
    }

    /// Whether the pattern stands for no number.
    pub fn not_a_number(self) -> (r: bool)
        ensures
            r == self.is_nan(),
    {
        self.pattern() > INFINITY
    }

    /// `self < other`.
    pub fn less_than(self, other: Binary32) -> (r: bool)
        ensures
            r == less(self, other),
    {
        if self.not_a_number() || other.not_a_number() {
            return false;
        }
        let a: u32 = self.pattern();
        let b: u32 = other.pattern();
        proof {
            lemma_size_zero();
            if a < b {
                lemma_size_increases(a as int, b as int);
            }
            if b < a {
                lemma_size_increases(b as int, a as int);
            }
            if 0 < a {
                lemma_size_increases(0, a as int);
            }
            if 0 < b {
                lemma_size_increases(0, b as int);
            }
        }
        if self.sign() {
            if other.sign() {
                b < a
            } else {
                a > 0 || b > 0
            }
        } else {
            !other.sign() && a < b
        }
    }

    /// The larger of two numbers, or the other one where one is not a number.
    pub fn max_of(self, other: Binary32) -> (r: Binary32)
        ensures
            r == larger(self, other),
    {
        if self.not_a_number() || self.less_than(other) {
            other
        } else {
            self
        }
    }

    /// The smaller of two numbers, or the other one where one is not a number.
    pub fn min_of(self, other: Binary32) -> (r: Binary32)
        ensures
            r == smaller(self, other),
    {
        if self.not_a_number() || other.less_than(self) {
            other
        } else {
            self
        }
    }

    /// The number with the other sign.
    pub fn negated(self) -> (r: Binary32)
        ensures
            r == self.opposite(),
    {
        if self.sign() {
            Binary32 { bits: self.bits - SIGN_BIT }
        } else {
            Binary32 { bits: self.bits + SIGN_BIT }
        }
    }

    /// `self + other`.
    pub fn plus(self, other: Binary32) -> (r: Binary32)
        ensures
            r == sum(self, other),
    {
        if self.not_a_number() || other.not_a_number() {
            return Binary32 { bits: QUIET_NAN };
        }
        if self.pattern() == INFINITY {
            if other.pattern() == INFINITY && self.sign() != other.sign() {
                return Binary32 { bits: QUIET_NAN };
            }
            return self;
        }
        if other.pattern() == INFINITY {
            return other;
        }
        let (big, small) = if self.pattern() >= other.pattern() {
            (self, other)
        } else {
            (other, self)
        };
        let (digits, exponent) = big.split();
        let (small_digits, small_exponent) = small.split();
        let same: bool = big.sign() == small.sign();
        let ghost high = big.magnitude();
        let ghost low = small.magnitude();
        proof {
            if low < high {
                lemma_size_increases(low, high);
            }
            lemma_split(low);
            assert(exponent >= small_exponent);
        }
        let gap: u32 = exponent - small_exponent;
        let ghost total: int = if same {
            size(high) + size(low)
        } else {
            size(high) - size(low)
        };
        if gap >= 27 {
            proof {
                lemma_absorbed(high, low);
                lemma_is_the_nearest(total, 1, high);
                lemma_split(high);
                lemma_pow2_pos(exponent as nat);
                lemma_size_increases(0, high);
                assert(size(high - 1) + size(high) <= 2 * total);
                lemma_size_increases(high - 1, high);
                assert(total > 0);
            }
            return big;
        }
        let unit: u128 = power_of_two(gap);
        proof {
            lemma_pow2_adds(gap as nat, small_exponent as nat);
            lemma_pow2_pos(small_exponent as nat);
            vstd::arithmetic::power2::lemma2_to64();
            if gap < 27 {
                lemma_pow2_strictly_increases(gap as nat, 27);
            }
            assert(digits * unit <= 0x100_0000 * 0x800_0000) by (nonlinear_arith)
                requires
                    digits <= 0x100_0000,
                    unit <= 0x800_0000,
            ;
        }
        let shifted: u128 = digits as u128 * unit;
        let ghost p: int = pow2(small_exponent as nat) as int;
        proof {
            assert(size(high) == shifted * p) by (nonlinear_arith)
                requires
                    size(high) == digits * (unit * p),
                    shifted == digits * unit,
            ;
            if shifted < small_digits {
                assert(shifted * p < small_digits * p) by (nonlinear_arith)
                    requires
                        shifted < small_digits,
                        p > 0,
                ;
            }
        }
        let m: u128 = if same {
            shifted + small_digits as u128
        } else {
            shifted - small_digits as u128
        };
        proof {
            assert(total == m * p) by (nonlinear_arith)
                requires
                    size(high) == shifted * p,
                    size(low) == small_digits * p,
                    total == if same {
                        size(high) + size(low)
                    } else {
                        size(high) - size(low)
                    },
                    m == if same {
                        shifted + small_digits
                    } else {
                        shifted - small_digits
                    },
            ;
        }
        if m == 0 {
            proof {
                assert(total == 0) by (nonlinear_arith)
                    requires
                        total == m * p,
                        m == 0,
                ;
            }
            return Binary32::signed(self.sign() && other.sign(), 0);
        }
        let r: u32 = round_to_nearest(m, small_exponent as i32, false);
        proof {
            assert(total > 0) by (nonlinear_arith)
                requires
                    total == m * p,
                    m > 0,
                    p > 0,
            ;
            lemma_pow2_adds(small_exponent as nat, 200);
            let scale = pow2(200) as int;
            assert(m * (p * scale) * 1 == total * scale) by (nonlinear_arith)
                requires
                    total == m * p,
            ;
            lemma_enclosed_is_nearest(m as int, small_exponent as int, false, r as int, total, 1);
        }
        Binary32::signed(big.sign(), r)
    }

    /// `self - other`.
    pub fn minus(self, other: Binary32) -> (r: Binary32)
        ensures
            r == difference(self, other),
    {
        self.plus(other.negated())
    }

    /// `self * other`.
    pub fn times(self, other: Binary32) -> (r: Binary32)
        ensures
            r == product(self, other),
    {
        if self.not_a_number() || other.not_a_number() {
            return Binary32 { bits: QUIET_NAN };
        }
        let negative: bool = self.sign() != other.sign();
        if self.pattern() == INFINITY || other.pattern() == INFINITY {
            if self.pattern() == 0 || other.pattern() == 0 {
                return Binary32 { bits: QUIET_NAN };
            }
            return Binary32::signed(negative, INFINITY);
        }
        let (digits, exponent) = self.split();
        let (other_digits, other_exponent) = other.split();
        proof {
            assert(digits * other_digits < 0x1_0000_0000_0000) by (nonlinear_arith)
                requires
                    digits < 0x100_0000,
                    other_digits < 0x100_0000,
            ;
        }
        let m: u128 = digits as u128 * other_digits as u128;
        let e: i32 = exponent as i32 + other_exponent as i32 - 149;
        let r: u32 = round_to_nearest(m, e, false);
        proof {
            let a = pow2(exponent as nat) as int;
            let b = pow2(other_exponent as nat) as int;
            let scale = pow2(200) as int;
            let unit = pow2((e + 200) as nat) as int;
            let den = pow2(149) as int;
            let num = size(self.magnitude()) * size(other.magnitude());
            lemma_pow2_adds((e + 200) as nat, 149);
            lemma_pow2_adds(exponent as nat, other_exponent as nat);
            lemma_pow2_adds((exponent + other_exponent) as nat, 200);
            lemma_pow2_pos(149);
            assert(unit * den == a * b * scale);
            assert(m * unit * den == num * scale) by (nonlinear_arith)
                requires
                    unit * den == a * b * scale,
                    m == digits * other_digits,
                    num == (digits * a) * (other_digits * b),
            ;
            lemma_enclosed_is_nearest(m as int, e as int, false, r as int, num, den);
        }
        Binary32::signed(negative, r)
    }

    /// `self / other`.
    pub fn divided_by(self, other: Binary32) -> (r: Binary32)
        ensures
            r == quotient(self, other),
    {
        if self.not_a_number() || other.not_a_number() {
            return Binary32 { bits: QUIET_NAN };
        }
        let negative: bool = self.sign() != other.sign();
        if self.pattern() == INFINITY && other.pattern() == INFINITY {
            return Binary32 { bits: QUIET_NAN };
        }
        if self.pattern() == 0 && other.pattern() == 0 {
            return Binary32 { bits: QUIET_NAN };
        }
        if self.pattern() == INFINITY || other.pattern() == 0 {
            return Binary32::signed(negative, INFINITY);
        }
        if other.pattern() == INFINITY {
            return Binary32::signed(negative, 0);
        }
        let (digits, exponent) = self.split();
        let (other_digits, other_exponent) = other.split();
        let ghost den: int = size(other.magnitude());
        let ghost num: int = size(self.magnitude()) * pow2(149);
        proof {
            lemma_size_increases(0, other.magnitude());
        }
        let wide: u128 = digits as u128 * 0x1_0000_0000_0000_0000;
        let d: u128 = other_digits as u128;
        let m: u128 = wide / d;
        let inexact: bool = wide % d != 0;
        let e: i32 = exponent as i32 - other_exponent as i32 + 85;
        proof {
            vstd::arithmetic::div_mod::lemma_fundamental_div_mod(wide as int, d as int);
            assert(d * m == m * d) by (nonlinear_arith);
            assert(m * d <= wide && wide < (m + 1) * d) by (nonlinear_arith)
                requires
                    wide == m * d + wide % d,
                    0 <= wide % d < d,
            ;
            if inexact {
                assert(digits > 0);
                assert(m >= 0x100_0000) by (nonlinear_arith)
                    requires
                        wide < (m + 1) * d,
                        wide >= 0x1_0000_0000_0000_0000,
                        0 < d < 0x100_0000,
                ;
            }
            assert(m <= wide) by (nonlinear_arith)
                requires
                    m * d <= wide,
                    d >= 1,
                    m >= 0,
            ;
        }
        let r: u32 = round_to_nearest(m, e, inexact);
        proof {
            // With the common factor `f`, the unit times the divisor is `d * f`
            // and the scaled dividend is `wide * f`.
            let unit = pow2((e + 200) as nat) as int;
            let scale = pow2(200) as int;
            let f = pow2((exponent + 285) as nat) as int;
            lemma_pow2_adds((e + 200) as nat, other_exponent as nat);
            assert(f == unit * pow2(other_exponent as nat));
            lemma_pow2_adds(exponent as nat, 349);
            lemma_pow2_adds(149, 200);
            lemma_pow2_adds(64, (exponent + 285) as nat);
            vstd::arithmetic::power2::lemma2_to64();
            lemma_pow2_pos((exponent + 285) as nat);
            let b = pow2(other_exponent as nat) as int;
            let a = pow2(exponent as nat) as int;
            let p149 = pow2(149) as int;
            assert(unit * den == d * f) by (nonlinear_arith)
                requires
                    f == unit * b,
                    den == d * b,
            ;
            assert(num * scale == wide * f) by (nonlinear_arith)
                requires
                    num == (digits * a) * p149,
                    wide == digits * 0x1_0000_0000_0000_0000,
                    0x1_0000_0000_0000_0000 * f == a * (p149 * scale),
            ;
            assert(m * unit * den == (m * d) * f) by (nonlinear_arith)
                requires
                    unit * den == d * f,
            ;
            assert((m + 1) * unit * den == ((m + 1) * d) * f) by (nonlinear_arith)
                requires
                    unit * den == d * f,
            ;
            let low = m * d;
            let high = (m + 1) * d;
            assert(wide * f < high * f) by (nonlinear_arith)
                requires
                    wide < high,
                    f > 0,
            ;
            if inexact {
                assert(low < wide);
                assert(low * f < wide * f) by (nonlinear_arith)
                    requires
                        low < wide,
                        f > 0,
                ;
            }
            lemma_enclosed_is_nearest(m as int, e as int, inexact, r as int, num, den);
        }
        Binary32::signed(negative, r)
    }
}

/// The whole number whose square is the largest that does not exceed `n`.
fn integer_root(n: u128) -> (s: u128)
    requires
        n < 0x4000_0000_0000_0000_0000_0000_0000_0000,
    ensures
        s < 0x8000_0000_0000_0000,
        s * s <= n,
        n < (s + 1) * (s + 1),
{
    let mut s: u128 = 0;
    let mut span: u128 = 0x8000_0000_0000_0000;
    while span > 1
        invariant
            span >= 1,
            s + span <= 0x8000_0000_0000_0000,
            s * s <= n,
            n < (s + span) * (s + span),
        decreases span,
    {
        let half: u128 = span / 2;
        let t: u128 = s + half;
        proof {
            assert(t * t <= 0x8000_0000_0000_0000 * 0x8000_0000_0000_0000) by (nonlinear_arith)
                requires
                    0 <= t <= 0x8000_0000_0000_0000,
            ;
        }
        if t * t <= n {
            s = t;
            span = span - half;
        } else {
            proof {
                assert((s + half) * (s + half) == t * t);
            }
            span = half;
        }
    }
    s
}

/// Halving an exponent: the root of `n` units, `n` being `d` times a power of
/// four, is enclosed as the root of `d` with the power of two.
proof fn lemma_enclosed_root(s: int, e: int, inexact: bool, r: int, d: int, n: int)
    requires
        e >= 0,
        s >= 0,
        0 <= r <= INFINITY,
        encloses(s, e, inexact, r),
        s * s <= d,
        d < (s + 1) * (s + 1),
        inexact == (s * s != d),
        n == d * (pow2(e as nat) * pow2(e as nat)),
    ensures
        nearest_root(n) == r,
{
    let p = pow2(e as nat) as int;
    let scale = pow2(200) as int;
    lemma_pow2_pos(200);
    lemma_pow2_pos(e as nat);
    lemma_pow2_adds(e as nat, 200);
    if r > 0 {
        let t = size(r - 1) + size(r);
        lemma_size_increases(r - 1, r);
        assert(t <= 2 * s * p && (t == 2 * s * p ==> scale * t == 2 * s * (p * scale)))
            by (nonlinear_arith)
            requires
                scale > 0,
                scale * t <= 2 * s * (p * scale),
        ;
        assert(t * t <= 4 * ((s * s) * (p * p))) by (nonlinear_arith)
            requires
                0 <= t <= 2 * s * p,
        ;
        assert(t * t == 4 * ((s * s) * (p * p)) ==> t == 2 * s * p) by (nonlinear_arith)
            requires
                0 <= t <= 2 * s * p,
        ;
        assert((s * s) * (p * p) <= n && ((s * s) * (p * p) == n ==> s * s == d))
            by (nonlinear_arith)
            requires
                s * s <= d,
                n == d * (p * p),
                p > 0,
        ;
    }
    if r < INFINITY {
        let t = size(r) + size(r + 1);
        lemma_size_increases(r, r + 1);
        if inexact {
            assert(2 * (s + 1) * p <= t) by (nonlinear_arith)
                requires
                    scale > 0,
                    2 * (s + 1) * (p * scale) <= scale * t,
            ;
            assert(4 * (((s + 1) * (s + 1)) * (p * p)) <= t * t) by (nonlinear_arith)
                requires
                    0 <= 2 * (s + 1) * p <= t,
            ;
            assert(n < ((s + 1) * (s + 1)) * (p * p)) by (nonlinear_arith)
                requires
                    d < (s + 1) * (s + 1),
                    n == d * (p * p),
                    p > 0,
            ;
        } else {
            assert(2 * s * p <= t && (2 * s * p == t ==> 2 * s * (p * scale) == scale * t))
                by (nonlinear_arith)
                requires
                    scale > 0,
                    2 * s * (p * scale) <= scale * t,
            ;
            assert(4 * ((s * s) * (p * p)) <= t * t) by (nonlinear_arith)
                requires
                    0 <= 2 * s * p <= t,
            ;
            assert(4 * ((s * s) * (p * p)) == t * t ==> 2 * s * p == t) by (nonlinear_arith)
                requires
                    0 <= 2 * s * p <= t,
            ;
            assert(n == (s * s) * (p * p));
        }
    }
    assert(is_nearest_root(n, r));
    lemma_nearest_root_unique(n, nearest_root(n), r);
}

/// Dropping the digits after the point of `digits * 2^exponent` units.
proof fn lemma_cut(digits: int, exponent: nat)
    requires
        digits >= 0,
    ensures
        exponent <= 149 ==> (digits * pow2(exponent)) / pow2(149) as int == digits / pow2(
            (149 - exponent) as nat,
        ) as int,
        exponent >= 149 ==> (digits * pow2(exponent)) / pow2(149) as int >= digits,
{
    let p = pow2(exponent) as int;
    let unit = pow2(149) as int;
    lemma_pow2_pos(exponent);
    lemma_pow2_pos(149);
    if exponent <= 149 {
        let rest = pow2((149 - exponent) as nat) as int;
        lemma_pow2_pos((149 - exponent) as nat);
        lemma_pow2_adds(exponent, (149 - exponent) as nat);
        vstd::arithmetic::div_mod::lemma_div_denominator(digits * p, p, rest);
        vstd::arithmetic::div_mod::lemma_div_by_multiple(digits, p);
    }
    if exponent >= 149 {
        let rest = pow2((exponent - 149) as nat) as int;
        lemma_pow2_pos((exponent - 149) as nat);
        lemma_pow2_adds((exponent - 149) as nat, 149);
        assert(digits * p == (digits * rest) * unit) by (nonlinear_arith)
            requires
                p == rest * unit,
        ;
        vstd::arithmetic::div_mod::lemma_div_by_multiple(digits * rest, unit);
        assert(digits * rest >= digits) by (nonlinear_arith)
            requires
                rest >= 1,
                digits >= 0,
        ;
    }
}

impl Binary32 {
    /// The square root.
    pub fn square_root(self) -> (r: Binary32)
        ensures
            r == root(self),
    {
        if self.not_a_number() {
            return Binary32 { bits: QUIET_NAN };
        }
        if self.pattern() == 0 {
            return self;
        }
        if self.sign() {
            return Binary32 { bits: QUIET_NAN };
        }
        if self.pattern() == INFINITY {
            return self;
        }
        let (digits, exponent) = self.split();
        let odd: bool = exponent % 2 == 0;
        let even_digits: u128 = if odd {
            digits as u128 * 2
        } else {
            digits as u128
        };
        let even_exponent: u32 = if odd {
            exponent + 148
        } else {
            exponent + 149
        };
        let wide: u128 = even_digits * 0x10_0000_0000_0000_0000_0000_0000;
        let s: u128 = integer_root(wide);
        let inexact: bool = {
            proof {
                assert(s * s < 0x8000_0000_0000_0000 * 0x8000_0000_0000_0000) by (nonlinear_arith)
                    requires
                        0 <= s < 0x8000_0000_0000_0000,
                ;
            }
            s * s != wide
        };
        let e: i32 = (even_exponent / 2) as i32 - 50;
        proof {
            assert(s >= 0x100_0000) by (nonlinear_arith)
                requires
                    wide < (s + 1) * (s + 1),
                    wide >= 0x10_0000_0000_0000_0000_0000_0000,
                    s >= 0,
            ;
        }
        let r: u32 = round_to_nearest(s, e, inexact);
        proof {
            let n = size(self.magnitude()) * pow2(149);
            let p = pow2(e as nat) as int;
            let hundred = pow2(100) as int;
            assert(hundred == 0x10_0000_0000_0000_0000_0000_0000) by {
                vstd::arithmetic::power2::lemma2_to64();
                vstd::arithmetic::power2::lemma2_to64_rest();
                lemma_pow2_adds(50, 50);
            }
            lemma_pow2_adds(e as nat, e as nat);
            lemma_pow2_adds(100, (2 * e) as nat);
            lemma_pow2_adds(exponent as nat, 149);
            lemma_pow2_unfold((exponent + 149) as nat);
            let a = pow2(exponent as nat) as int;
            let b = pow2(149) as int;
            let even = pow2(even_exponent as nat) as int;
            assert(even == hundred * (p * p));
            assert(n == even_digits * even) by (nonlinear_arith)
                requires
                    n == (digits * a) * b,
                    a * b == if odd {
                        2 * even
                    } else {
                        even
                    },
                    even_digits == if odd {
                        digits * 2
                    } else {
                        digits as int
                    },
            ;
            assert(n == wide * (p * p)) by (nonlinear_arith)
                requires
                    n == even_digits * even,
                    even == hundred * (p * p),
                    wide == even_digits * hundred,
            ;
            lemma_enclosed_root(s as int, e as int, inexact, r as int, wide as int, n);
        }
        Binary32::signed(false, r)
    }

    /// The pattern nearest to a whole number.
    fn whole_pattern(n: usize) -> (r: u32)
        ensures
            r <= INFINITY,
            r == nearest(n * pow2(149), 1),
    {
        let r: u32 = round_to_nearest(n as u128, 149, false);
        proof {
            lemma_pow2_adds(149, 200);
            let a = pow2(149) as int;
            let b = pow2(200) as int;
            assert(n * (a * b) * 1 == (n * a) * b) by (nonlinear_arith);
            lemma_enclosed_is_nearest(n as int, 149, false, r as int, n * a, 1);
        }
        r
    }

    /// The number nearest to a whole number.
    pub fn from_usize(n: usize) -> (r: Binary32)
        ensures
            r == whole(n as int),
    {
        Binary32::signed(false, Binary32::whole_pattern(n))
    }

    /// The number equal to a 16-bit whole number.
    pub fn from_i16(n: i16) -> (r: Binary32)
        ensures
            r == whole(n as int),
    {
        let distance: usize = if n < 0 {
            (-(n as i32)) as usize
        } else {
            n as usize
        };
        Binary32::signed(n < 0, Binary32::whole_pattern(distance))
    }

    /// The part before the point, kept within 0 to 255.
    pub fn to_byte(self) -> (r: u8)
        ensures
            r == byte(self),
    {
        if self.not_a_number() || self.sign() {
            return 0;
        }
        if self.pattern() == INFINITY {
            proof {
                lemma_size_of_split(254, 0x80_0000);
                lemma_cut(0x80_0000, 254);
            }
            return 255;
        }
        let (digits, exponent) = self.split();
        proof {
            lemma_cut(digits as int, exponent as nat);
        }
        if exponent >= 149 {
            return 255;
        }
        let shift: u32 = 149 - exponent;
        if shift >= 24 {
            proof {
                vstd::arithmetic::power2::lemma2_to64();
                if shift > 24 {
                    lemma_pow2_strictly_increases(24, shift as nat);
                }
                let unit = pow2(shift as nat) as int;
                vstd::arithmetic::div_mod::lemma_basic_div(digits as int, unit);
            }
            return 0;
        }
        let unit: u128 = power_of_two(shift);
        proof {
            lemma_pow2_pos(shift as nat);
        }
        let cut: u128 = digits as u128 / unit;
        if cut > 255 {
            255
        } else {
            cut as u8
        }
    }
}

} // verus!

//! Rounding to the nearest single-precision number.
//!
//! The non-negative single-precision numbers, infinity included, are numbered
//! by their bit patterns `0 ..= INFINITY`. Their sizes are whole multiples of
//! the smallest positive one, and they grow strictly with the pattern. That is
//! all that rounding needs: the nearest number to an exact value is the one
//! whose neighbours' midpoints enclose it.
use vstd::arithmetic::power2::{
    lemma_pow2_adds, lemma_pow2_pos, lemma_pow2_strictly_increases, lemma_pow2_unfold, pow2,
};
use vstd::prelude::*;

verus! {

/// The bit pattern of positive infinity, one above the largest finite number.
pub const INFINITY: u32 = 0x7F80_0000;

/// The size of the number with the bit pattern `b`, counted in units of the
/// smallest positive number, 2^-149. `INFINITY` counts as 2^128, the number
/// that would follow the largest finite one.
#[verifier::opaque]
pub open spec fn size(b: int) -> int {
    let exponent = b / 0x80_0000;
    let fraction = b % 0x80_0000;
    if exponent == 0 {
        fraction
    } else {
        (0x80_0000 + fraction) * pow2((exponent - 1) as nat)
    }
}

/// `r` is the pattern nearest to the exact value `num / den` (in units of
/// 2^-149), and of two equally near patterns the even one.
pub open spec fn is_nearest(num: int, den: int, r: int) -> bool {
    &&& 0 <= r <= INFINITY
    &&& r > 0 ==> {
        &&& den * (size(r - 1) + size(r)) <= 2 * num
        &&& den * (size(r - 1) + size(r)) == 2 * num ==> r % 2 == 0
    }
    &&& r < INFINITY ==> {
        &&& 2 * num <= den * (size(r) + size(r + 1))
        &&& 2 * num == den * (size(r) + size(r + 1)) ==> r % 2 == 0
    }
}

/// `r` is the pattern nearest to the square root of the whole number `n` (in
/// units of 2^-149): the square of a midpoint is compared with `n`.
pub open spec fn is_nearest_root(n: int, r: int) -> bool {
    &&& 0 <= r <= INFINITY
    &&& r > 0 ==> {
        &&& (size(r - 1) + size(r)) * (size(r - 1) + size(r)) <= 4 * n
        &&& (size(r - 1) + size(r)) * (size(r - 1) + size(r)) == 4 * n ==> r % 2 == 0
    }
    &&& r < INFINITY ==> {
        &&& 4 * n <= (size(r) + size(r + 1)) * (size(r) + size(r + 1))
        &&& 4 * n == (size(r) + size(r + 1)) * (size(r) + size(r + 1)) ==> r % 2 == 0
    }
}

/// The exponent part of the split of a pattern into `digits * 2^exponent`.
pub open spec fn exponent_of(b: int) -> int {
    if b / 0x80_0000 == 0 {
        0
    } else {
        b / 0x80_0000 - 1
    }
}

/// The digits of the split of a pattern into `digits * 2^exponent`.
pub open spec fn digits_of(b: int) -> int {
    b - exponent_of(b) * 0x80_0000
}

/// The pattern made of an exponent and digits has the size that they stand for.
pub proof fn lemma_size_of_split(exponent: int, digits: int)
    requires
        exponent >= 0,
        0 <= digits <= 0x100_0000,
        exponent > 0 ==> digits >= 0x80_0000,
    ensures
        size(exponent * 0x80_0000 + digits) == digits * pow2(exponent as nat),
{
    reveal(size);
    let b = exponent * 0x80_0000 + digits;
    lemma_pow2_unfold(1);
    lemma_pow2_unfold((exponent + 1) as nat);
    assert(pow2(0) == 1) by {
        vstd::arithmetic::power2::lemma2_to64();
    }
    if digits < 0x80_0000 {
        assert(b / 0x80_0000 == 0);
    } else if digits < 0x100_0000 {
        assert(b / 0x80_0000 == exponent + 1);
    } else {
        assert(b / 0x80_0000 == exponent + 2);
        assert(b % 0x80_0000 == 0);
        assert(0x80_0000 * pow2((exponent + 1) as nat) == 0x100_0000 * pow2(exponent as nat));
    }
}

/// The pattern 0 has the size 0.
pub proof fn lemma_size_zero()
    ensures
        size(0) == 0,
{
    reveal(size);
}

/// Every pattern is the one made of its own exponent and digits.
pub proof fn lemma_split(b: int)
    requires
        b >= 0,
    ensures
        exponent_of(b) >= 0,
        0 <= digits_of(b) < 0x100_0000,
        exponent_of(b) > 0 ==> digits_of(b) >= 0x80_0000,
        b == exponent_of(b) * 0x80_0000 + digits_of(b),
        size(b) == digits_of(b) * pow2(exponent_of(b) as nat),
        size(b + 1) == size(b) + pow2(exponent_of(b) as nat),
        size(b) >= 0,
{
    let g = exponent_of(b);
    let q = digits_of(b);
    lemma_size_of_split(g, q);
    lemma_size_of_split(g, q + 1);
    lemma_pow2_pos(g as nat);
    assert((q + 1) * pow2(g as nat) == q * pow2(g as nat) + pow2(g as nat)) by (nonlinear_arith);
    assert(q * pow2(g as nat) >= 0) by (nonlinear_arith)
        requires
            q >= 0,
    ;
}

/// Sizes grow strictly with the pattern.
pub proof fn lemma_size_increases(a: int, b: int)
    requires
        0 <= a < b,
    ensures
        0 <= size(a) < size(b),
    decreases b - a,
{
    lemma_split(a);
    lemma_pow2_pos(exponent_of(a) as nat);
    if a + 1 < b {
        lemma_size_increases(a + 1, b);
    }
}

/// Rounding is monotone: a smaller value never rounds to a larger pattern.
pub proof fn lemma_nearest_monotone(num1: int, den1: int, r1: int, num2: int, den2: int, r2: int)
    requires
        den1 > 0,
        den2 > 0,
        num1 * den2 <= num2 * den1,
        is_nearest(num1, den1, r1),
        is_nearest(num2, den2, r2),
    ensures
        r1 <= r2,
{
    if r2 < r1 {
        let low = size(r2) + size(r2 + 1);
        let high = size(r1 - 1) + size(r1);
        if r2 + 1 < r1 {
            lemma_size_increases(r2, r1 - 1);
            lemma_size_increases(r2 + 1, r1);
        }
        assert(low <= high);
        assert(den1 * high <= 2 * num1);
        assert(2 * num2 <= den2 * low);
        assert(den1 * high * den2 <= 2 * num1 * den2) by (nonlinear_arith)
            requires
                den1 * high <= 2 * num1,
                den2 > 0,
        ;
        assert(2 * num2 * den1 <= den2 * low * den1) by (nonlinear_arith)
            requires
                2 * num2 <= den2 * low,
                den1 > 0,
        ;
        assert(den2 * low * den1 <= den1 * high * den2) by (nonlinear_arith)
            requires
                low <= high,
                den1 > 0,
                den2 > 0,
        ;
        assert(2 * num1 * den2 <= 2 * num2 * den1) by (nonlinear_arith)
            requires
                num1 * den2 <= num2 * den1,
        ;
        assert(den2 * low * den1 == den1 * high * den2);
        assert(low == high) by (nonlinear_arith)
            requires
                den2 * low * den1 == den1 * high * den2,
                den1 > 0,
                den2 > 0,
        ;
        assert(r1 == r2 + 1);
        assert(den1 * high == 2 * num1) by (nonlinear_arith)
            requires
                den1 * high * den2 == 2 * num1 * den2,
                den2 > 0,
        ;
        assert(2 * num2 == den2 * low) by (nonlinear_arith)
            requires
                2 * num2 * den1 == den2 * low * den1,
                den1 > 0,
        ;
        assert(false);
    }
}

/// The nearest pattern is unique.
pub proof fn lemma_nearest_unique(num: int, den: int, r1: int, r2: int)
    requires
        den > 0,
        is_nearest(num, den, r1),
        is_nearest(num, den, r2),
    ensures
        r1 == r2,
{
    lemma_nearest_monotone(num, den, r1, num, den, r2);
    lemma_nearest_monotone(num, den, r2, num, den, r1);
}

/// Rounding a square root is monotone.
pub proof fn lemma_nearest_root_monotone(n1: int, r1: int, n2: int, r2: int)
    requires
        n1 <= n2,
        is_nearest_root(n1, r1),
        is_nearest_root(n2, r2),
    ensures
        r1 <= r2,
{
    if r2 < r1 {
        let low = size(r2) + size(r2 + 1);
        let high = size(r1 - 1) + size(r1);
        lemma_size_increases(r2, r2 + 1);
        if r2 + 1 < r1 {
            lemma_size_increases(r2, r1 - 1);
            lemma_size_increases(r2 + 1, r1);
        }
        assert(high * high <= low * low);
        assert(high <= low) by (nonlinear_arith)
            requires
                high * high <= low * low,
                low >= 0,
        ;
        assert(r1 == r2 + 1);
        assert(false);
    }
}

/// The nearest pattern to a square root is unique.
pub proof fn lemma_nearest_root_unique(n: int, r1: int, r2: int)
    requires
        is_nearest_root(n, r1),
        is_nearest_root(n, r2),
    ensures
        r1 == r2,
{
    lemma_nearest_root_monotone(n, r1, n, r2);
    lemma_nearest_root_monotone(n, r2, n, r1);
}

/// 2 to the power `k`.
pub fn power_of_two(k: u32) -> (p: u128)
    requires
        k < 128,
    ensures
        p == pow2(k as nat),
{
    let top: u128 = 0x8000_0000_0000_0000_0000_0000_0000_0000;
    let shift: u128 = (127 - k) as u128;
    proof {
        vstd::bits::lemma_u128_shr_is_div(top, shift);
        assert(top == pow2(127)) by {
            vstd::arithmetic::power2::lemma2_to64();
            vstd::arithmetic::power2::lemma2_to64_rest();
            lemma_pow2_adds(63, 64);
        }
        lemma_pow2_adds(k as nat, shift as nat);
        lemma_pow2_pos(shift as nat);
        assert((pow2(k as nat) * pow2(shift as nat)) / pow2(shift as nat) == pow2(k as nat))
            by (nonlinear_arith)
            requires
                pow2(shift as nat) > 0,
        ;
    }
    top >> shift
}

/// The number of binary digits of a positive number.
pub fn bit_length(m: u128) -> (len: u32)
    requires
        m > 0,
    ensures
        1 <= len <= 128,
        pow2((len - 1) as nat) <= m < pow2(len as nat),
{
    let mut rest: u128 = m;
    let mut len: u32 = 0;
    let mut step: u32 = 64;
    proof {
        vstd::arithmetic::power2::lemma2_to64();
        vstd::arithmetic::power2::lemma2_to64_rest();
        lemma_pow2_adds(64, 64);
    }
    while step > 0
        invariant
            step == 64 || step == 32 || step == 16 || step == 8 || step == 4 || step == 2 || step
                == 1 || step == 0,
            len + 2 * step <= 128,
            step == 0 ==> len <= 127 && rest < 2,
            step > 0 ==> rest < pow2((2 * step) as nat),
            rest >= 1,
            pow2(len as nat) * rest <= m < pow2(len as nat) * (rest + 1),
        decreases step,
    {
        let unit: u128 = power_of_two(step);
        proof {
            lemma_pow2_pos(step as nat);
            lemma_pow2_adds(step as nat, step as nat);
        }
        if rest >= unit {
            let ghost before: int = rest as int;
            let ghost p: int = pow2(len as nat) as int;
            rest = rest / unit;
            proof {
                lemma_pow2_adds(len as nat, step as nat);
                let u = unit as int;
                let r = rest as int;
                assert(r * u <= before < (r + 1) * u && r >= 1 && r < u) by (nonlinear_arith)
                    requires
                        r == before / u,
                        u > 0,
                        u <= before < u * u,
                ;
                assert(p * u * r <= p * before) by (nonlinear_arith)
                    requires
                        r * u <= before,
                        p >= 0,
                ;
                assert(p * (before + 1) <= p * u * (r + 1)) by (nonlinear_arith)
                    requires
                        before + 1 <= (r + 1) * u,
                        p >= 0,
                ;
            }
            len = len + step;
        }
        step = step / 2;
        proof {
            if step == 0 {
                assert(pow2(1) == 2) by {
                    vstd::arithmetic::power2::lemma2_to64();
                }
            }
        }
    }
    proof {
        lemma_pow2_unfold((len + 1) as nat);
        let p = pow2(len as nat) as int;
        assert(p * 1 == p && p * (1 + 1) == 2 * p) by (nonlinear_arith);
        assert(rest == 1);
    }
    len + 1
}

/// The exact value `(m + d) * 2^e`, where `d` is 0, or some number strictly
/// between 0 and 1 where `inexact` holds, lies between the midpoints on the two
/// sides of the pattern `r`, or on one of them where `r` is even. Both sides of
/// each comparison are scaled by 2^200.
pub open spec fn encloses(m: int, e: int, inexact: bool, r: int) -> bool {
    let unit = pow2((e + 200) as nat);
    let scale = pow2(200);
    let above: int = if inexact {
        m + 1
    } else {
        m
    };
    &&& r >= 0
    &&& r > 0 ==> {
        &&& scale * (size(r - 1) + size(r)) <= 2 * m * unit
        &&& scale * (size(r - 1) + size(r)) == 2 * m * unit ==> inexact || r % 2 == 0
    }
    &&& r < INFINITY ==> {
        &&& 2 * above * unit <= scale * (size(r) + size(r + 1))
        &&& 2 * above * unit == scale * (size(r) + size(r + 1)) ==> inexact || r % 2 == 0
    }
}

/// What the digits kept and the digits dropped say of the enclosing midpoints.
proof fn lemma_encloses(m: int, e: int, inexact: bool, g: int, shift: int, q: int)
    requires
        m >= 0,
        e >= -200,
        g >= 0,
        shift >= 0,
        g == e + shift,
        0 <= q <= 0x100_0000,
        g > 0 ==> q >= 0x80_0000,
        g > 0 && q == 0x80_0000 ==> m >= q * pow2(shift as nat),
        q > 0 ==> {
            &&& (2 * q - 1) * pow2(shift as nat) <= 2 * m
            &&& (2 * q - 1) * pow2(shift as nat) == 2 * m ==> inexact || q % 2 == 0
        },
        2 * (m + (if inexact {
            1int
        } else {
            0int
        })) <= (2 * q + 1) * pow2(shift as nat),
        2 * m == (2 * q + 1) * pow2(shift as nat) ==> inexact || q % 2 == 0,
    ensures
        encloses(m, e, inexact, g * 0x80_0000 + q),
{
    let r = g * 0x80_0000 + q;
    let unit = pow2((e + 200) as nat) as int;
    let scale = pow2(200) as int;
    let h = pow2(shift as nat) as int;
    let pg = pow2(g as nat) as int;
    let above: int = if inexact {
        m + 1
    } else {
        m
    };
    lemma_pow2_pos((e + 200) as nat);
    lemma_pow2_pos(shift as nat);
    lemma_pow2_pos(g as nat);
    lemma_pow2_pos(200);
    lemma_pow2_adds(200, g as nat);
    lemma_pow2_adds((e + 200) as nat, shift as nat);
    assert(scale * pg == unit * h);
    assert(r % 2 == q % 2);
    if q < 0x100_0000 {
        lemma_size_of_split(g, q);
        lemma_size_of_split(g, q + 1);
    } else {
        lemma_size_of_split(g, q);
        lemma_split(r);
    }
    // The midpoint above.
    assert(size(r) == q * pg);
    if q < 0x100_0000 {
        assert(size(r + 1) == (q + 1) * pg);
        assert(scale * (size(r) + size(r + 1)) == (2 * q + 1) * h * unit) by (nonlinear_arith)
            requires
                size(r) == q * pg,
                size(r + 1) == (q + 1) * pg,
                scale * pg == unit * h,
        ;
        assert(2 * above * unit <= (2 * q + 1) * h * unit) by (nonlinear_arith)
            requires
                2 * above <= (2 * q + 1) * h,
                unit > 0,
        ;
        if 2 * above * unit == (2 * q + 1) * h * unit {
            assert(2 * above == (2 * q + 1) * h) by (nonlinear_arith)
                requires
                    2 * above * unit == (2 * q + 1) * h * unit,
                    unit > 0,
            ;
        }
    } else {
        // The next gap is twice as wide.
        assert(exponent_of(r) == g + 1);
        lemma_pow2_unfold((g + 1) as nat);
        assert(size(r + 1) == (q + 2) * pg) by (nonlinear_arith)
            requires
                size(r) == q * pg,
                size(r + 1) == size(r) + 2 * pg,
        ;
        assert(scale * (size(r) + size(r + 1)) == (2 * q + 2) * h * unit) by (nonlinear_arith)
            requires
                size(r) == q * pg,
                size(r + 1) == (q + 2) * pg,
                scale * pg == unit * h,
        ;
        assert(2 * above * unit < (2 * q + 2) * h * unit) by (nonlinear_arith)
            requires
                2 * above <= (2 * q + 1) * h,
                unit > 0,
                h > 0,
        ;
    }
    // The midpoint below.
    if r > 0 {
        if q == 0x80_0000 && g > 0 {
            lemma_size_of_split(g - 1, 0xFF_FFFF);
            lemma_pow2_unfold(g as nat);
            let half = pow2((g - 1) as nat) as int;
            assert((g - 1) * 0x80_0000 + 0xFF_FFFF == r - 1);
            assert(scale * (size(r - 1) + size(r)) < 2 * q * h * unit) by (nonlinear_arith)
                requires
                    size(r - 1) == 0xFF_FFFF * half,
                    size(r) == q * pg,
                    pg == 2 * half,
                    q == 0x80_0000,
                    half > 0,
                    scale > 0,
                    scale * pg == unit * h,
            ;
            assert(2 * q * h * unit <= 2 * m * unit) by (nonlinear_arith)
                requires
                    m >= q * h,
                    unit > 0,
            ;
        } else {
            assert(q > 0);
            lemma_size_of_split(g, q - 1);
            assert(scale * (size(r - 1) + size(r)) == (2 * q - 1) * h * unit) by (nonlinear_arith)
                requires
                    size(r) == q * pg,
                    size(r - 1) == (q - 1) * pg,
                    scale * pg == unit * h,
            ;
            assert((2 * q - 1) * h * unit <= 2 * m * unit) by (nonlinear_arith)
                requires
                    (2 * q - 1) * h <= 2 * m,
                    unit > 0,
            ;
            if (2 * q - 1) * h * unit == 2 * m * unit {
                assert((2 * q - 1) * h == 2 * m) by (nonlinear_arith)
                    requires
                        (2 * q - 1) * h * unit == 2 * m * unit,
                        unit > 0,
                ;
            }
        }
    }
}

/// A number below 2^126 has at most 126 binary digits.
proof fn lemma_pow2_bounds(len: nat, m: int)
    requires
        1 <= len <= 128,
        pow2((len - 1) as nat) <= m,
        m < 0x4000_0000_0000_0000_0000_0000_0000_0000,
    ensures
        len <= 126,
{
    assert(pow2(126) == 0x4000_0000_0000_0000_0000_0000_0000_0000) by {
        vstd::arithmetic::power2::lemma2_to64();
        vstd::arithmetic::power2::lemma2_to64_rest();
        lemma_pow2_adds(62, 64);
    }
    if len > 127 {
        lemma_pow2_strictly_increases(126, (len - 1) as nat);
    }
}

/// Shifting up to 24 digits keeps the number below 2^24, and at 2^23 or more
/// where it fills all 24.
proof fn lemma_exact_digits(m: int, len: nat, up: nat)
    requires
        1 <= len,
        len + up <= 24,
        pow2((len - 1) as nat) <= m < pow2(len),
    ensures
        0 < m * pow2(up) < 0x100_0000,
        len + up == 24 ==> m * pow2(up) >= 0x80_0000,
{
    vstd::arithmetic::power2::lemma2_to64();
    lemma_pow2_adds(len, up);
    lemma_pow2_adds((len - 1) as nat, up);
    lemma_pow2_pos(up);
    lemma_pow2_pos((len - 1) as nat);
    if len + up < 24 {
        lemma_pow2_strictly_increases(len + up, 24);
    }
    let u = pow2(up) as int;
    let low = pow2((len - 1) as nat) as int;
    let high = pow2(len) as int;
    assert(low * u <= m * u < high * u && m * u > 0) by (nonlinear_arith)
        requires
            0 < low <= m < high,
            u > 0,
    ;
}

/// The digits kept are at most 24, and exactly 24 unless the exponent is the
/// smallest.
proof fn lemma_kept_digits(m: int, len: nat, shift: nat, kept: int, g: int)
    requires
        1 <= len,
        1 <= shift,
        shift <= len,
        pow2((len - 1) as nat) <= m < pow2(len),
        kept == m / pow2(shift) as int,
        len <= shift + 24,
        g > 0 ==> len == shift + 24,
    ensures
        0 <= kept < 0x100_0000,
        g > 0 ==> kept >= 0x80_0000,
{
    vstd::arithmetic::power2::lemma2_to64();
    lemma_pow2_pos(shift);
    let u = pow2(shift) as int;
    let high = pow2((len - shift) as nat) as int;
    lemma_pow2_adds((len - shift) as nat, shift);
    if len - shift < 24 {
        lemma_pow2_strictly_increases((len - shift) as nat, 24);
    }
    assert(0 <= kept < high) by (nonlinear_arith)
        requires
            kept == m / u,
            0 <= m < high * u,
            u > 0,
    ;
    if g > 0 {
        lemma_pow2_adds(23, shift);
        assert(kept >= 0x80_0000) by (nonlinear_arith)
            requires
                kept == m / u,
                m >= 0x80_0000 * u,
                u > 0,
        ;
    }
}

/// A value with no digits to drop is enclosed.
proof fn lemma_encloses_exact(m: int, e: int, g: int, up: int, q: int)
    requires
        m > 0,
        e >= -200,
        g >= 0,
        up >= 0,
        e == g + up,
        q == m * pow2(up as nat),
        0 < q < 0x100_0000,
        g > 0 ==> q >= 0x80_0000,
    ensures
        encloses(m, e, false, g * 0x80_0000 + q),
{
    lemma_pow2_adds(up as nat, (g + 200) as nat);
    assert(pow2(0) == 1) by {
        vstd::arithmetic::power2::lemma2_to64();
    }
    let u = pow2(up as nat) as int;
    let p = pow2((g + 200) as nat) as int;
    assert((2 * q - 1) * 1 == 2 * q - 1 && (2 * q + 1) * 1 == 2 * q + 1 && q * 1 == q)
        by (nonlinear_arith);
    lemma_encloses(q, g, false, g, 0, q);
    assert(2 * m * (u * p) == 2 * (m * u) * p) by (nonlinear_arith);
    assert(pow2((e + 200) as nat) == u * p);
}

/// Rounding by the digits dropped encloses the value.
pub proof fn lemma_encloses_rounded(
    m: int,
    e: int,
    inexact: bool,
    g: int,
    shift: int,
    kept: int,
    dropped: int,
    q: int,
)
    requires
        m > 0,
        e >= -200,
        g >= 0,
        shift >= 1,
        g == e + shift,
        kept == m / pow2(shift as nat) as int,
        dropped == m % pow2(shift as nat) as int,
        0 <= kept < 0x100_0000,
        g > 0 ==> kept >= 0x80_0000,
        ({
            let half = pow2(shift as nat) as int / 2;
            q == if dropped > half || (dropped == half && (inexact || kept % 2 == 1)) {
                kept + 1
            } else {
                kept
            }
        }),
    ensures
        encloses(m, e, inexact, g * 0x80_0000 + q),
{
    lemma_pow2_pos(shift as nat);
    lemma_pow2_pos((shift - 1) as nat);
    lemma_pow2_unfold(shift as nat);
    let h = pow2(shift as nat) as int;
    let half = pow2((shift - 1) as nat) as int;
    assert(h == 2 * half);
    vstd::arithmetic::div_mod::lemma_fundamental_div_mod(m, h);
    assert(m == h * kept + dropped && 0 <= dropped < h);
    assert(h * kept == kept * h) by (nonlinear_arith);
    assert((2 * kept + 1) * h == 2 * (kept * h) + h) by (nonlinear_arith);
    assert((2 * kept - 1) * h == 2 * (kept * h) - h) by (nonlinear_arith);
    assert((2 * (kept + 1) + 1) * h == 2 * (kept * h) + 3 * h) by (nonlinear_arith);
    assert((2 * (kept + 1) - 1) * h == 2 * (kept * h) + h) by (nonlinear_arith);
    lemma_encloses(m, e, inexact, g, shift, q);
}

/// What lies beyond the largest finite number is enclosed by infinity.
proof fn lemma_encloses_infinity(m: int, e: int, inexact: bool, r: int)
    requires
        r >= INFINITY,
        encloses(m, e, inexact, r),
    ensures
        encloses(m, e, inexact, INFINITY as int),
{
    let top = INFINITY as int;
    if r > top {
        lemma_size_increases(top - 1, r - 1);
        lemma_size_increases(top, r);
        let scale = pow2(200) as int;
        let s = size(top - 1) + size(top);
        let t = size(r - 1) + size(r);
        assert(scale * s <= scale * t) by (nonlinear_arith)
            requires
                s <= t,
                scale >= 0,
        ;
    }
}

/// The pattern nearest to the exact value `(m + d) * 2^e`, where `d` is 0, or
/// some number strictly between 0 and 1 where `inexact` holds.
pub fn round_to_nearest(m: u128, e: i32, inexact: bool) -> (r: u32)
    requires
        m < 0x4000_0000_0000_0000_0000_0000_0000_0000,
        -200 <= e <= 1000,
        inexact ==> m >= 0x100_0000,
    ensures
        r <= INFINITY,
        encloses(m as int, e as int, inexact, r as int),
{
    if m == 0 {
        proof {
            lemma_pow2_pos(200);
            lemma_size_zero();
            lemma_size_increases(0, 1);
            let unit = pow2((e + 200) as nat) as int;
            let scale = pow2(200) as int;
            assert(2 * 0 * unit == 0) by (nonlinear_arith);
            assert(scale * (size(0) + size(1)) > 0) by (nonlinear_arith)
                requires
                    scale > 0,
                    size(0) + size(1) > 0,
            ;
        }
        return 0;
    }
    let len: u32 = bit_length(m);
    proof {
        lemma_pow2_bounds(len as nat, m as int);
    }
    let top: i32 = len as i32 + e - 24;
    let g: i32 = if top > 0 {
        top
    } else {
        0
    };
    let q: u128;
    if g <= e {
        let up: u32 = (e - g) as u32;
        let unit: u128 = power_of_two(up);
        proof {
            lemma_exact_digits(m as int, len as nat, up as nat);
            if inexact {
                vstd::arithmetic::power2::lemma2_to64();
                if len < 24 {
                    lemma_pow2_strictly_increases(len as nat, 24);
                }
            }
        }
        q = m * unit;
        proof {
            lemma_encloses_exact(m as int, e as int, g as int, up as int, q as int);
        }
    } else {
        let shift: u32 = (g - e) as u32;
        if shift > len {
            q = 0;
            proof {
                lemma_pow2_unfold(shift as nat);
                if len + 1 < shift {
                    lemma_pow2_strictly_increases(len as nat, (shift - 1) as nat);
                }
                let h = pow2(shift as nat) as int;
                assert((2 * 0 + 1) * h == h) by (nonlinear_arith);
                lemma_encloses(m as int, e as int, inexact, g as int, shift as int, 0);
            }
        } else {
            let unit: u128 = power_of_two(shift);
            proof {
                lemma_pow2_pos(shift as nat);
                lemma_pow2_unfold(shift as nat);
            }
            let kept: u128 = m / unit;
            let dropped: u128 = m % unit;
            let half: u128 = unit / 2;
            let up: bool = dropped > half || (dropped == half && (inexact || kept % 2 == 1));
            proof {
                lemma_kept_digits(m as int, len as nat, shift as nat, kept as int, g as int);
            }
            q = if up {
                kept + 1
            } else {
                kept
            };
            proof {
                lemma_encloses_rounded(
                    m as int,
                    e as int,
                    inexact,
                    g as int,
                    shift as int,
                    kept as int,
                    dropped as int,
                    q as int,
                );
            }
        }
    }
    let pattern: u64 = g as u64 * 0x80_0000 + q as u64;
    if pattern < INFINITY as u64 {
        pattern as u32
    } else {
        proof {
            lemma_encloses_infinity(m as int, e as int, inexact, pattern as int);
        }
        INFINITY
    }
}

} // verus!

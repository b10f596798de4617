//! Binary floating-point numbers, held by their bits.

use crate::json::Number;
use vstd::arithmetic::div_mod::{
    lemma_div_is_ordered_by_denominator, lemma_div_multiples_vanish, lemma_mod_multiples_basic,
    lemma_multiply_divide_lt,
};
use vstd::prelude::*;

verus! {

/// Whether the binary64 number with these bits is neither infinite nor
/// not-a-number.
pub open spec fn is_finite_double(bits: u64) -> bool {
    (bits / 0x10_0000_0000_0000) % 0x800 != 0x7ff
}

/// Whether the binary32 number with these bits is neither infinite nor
/// not-a-number.
pub open spec fn is_finite_single(bits: u32) -> bool {
    (bits / 0x80_0000) % 0x100 != 0xff
}

/// `2` to the power `k`.
pub open spec fn pow2(k: nat) -> nat
    decreases k,
{
    if k == 0 {
        1
    } else {
        2 * pow2((k - 1) as nat)
    }
}

/// How often a fraction below `2^23` is doubled until it reaches `2^23`.
pub open spec fn doublings(fraction: nat) -> nat
    decreases
            (if fraction < 0x80_0000 {
                0x80_0000 - fraction
            } else {
                0
            }),
{
    if fraction == 0 || fraction >= 0x80_0000 {
        0
    } else {
        1 + doublings(2 * fraction)
    }
}

/// The bits of the binary64 number that equals the finite binary32 number
/// with the bits `bits`.
pub open spec fn double_of_single(bits: u32) -> u64 {
    let sign = (bits / 0x8000_0000) as int;
    let exponent = ((bits / 0x80_0000) % 0x100) as int;
    let fraction = (bits % 0x80_0000) as int;
    let magnitude: int = if exponent == 0 {
        if fraction == 0 {
            0
        } else {
            let k = doublings(fraction as nat);
            (897 - k) * 0x10_0000_0000_0000 + (fraction * pow2(k) - 0x80_0000) * 0x2000_0000
        }
    } else {
        (exponent + 896) * 0x10_0000_0000_0000 + fraction * 0x2000_0000
    };
    (sign * 0x8000_0000_0000_0000 + magnitude) as u64
}

/// Whether the binary64 number with these bits is neither infinite nor
/// not-a-number.
pub fn double_is_finite(bits: u64) -> (r: bool)
    ensures
        r == is_finite_double(bits),
{
    (bits / 0x10_0000_0000_0000) % 0x800 != 0x7ff
}

/// Whether the binary32 number with these bits is neither infinite nor
/// not-a-number.
pub fn single_is_finite(bits: u32) -> (r: bool)
    ensures
        r == is_finite_single(bits),
{
    (bits / 0x80_0000) % 0x100 != 0xff
}

/// The bits of the binary64 number that equals the finite binary32 number
/// with the bits `bits`.
pub fn widen(bits: u32) -> (r: u64)
    requires
        is_finite_single(bits),
    ensures
        r == double_of_single(bits),
        is_finite_double(r),
{
    let sign: u64 = (bits / 0x8000_0000) as u64;
    let exponent: u64 = ((bits / 0x80_0000) % 0x100) as u64;
    let fraction: u64 = (bits % 0x80_0000) as u64;
    let magnitude: u64 = if exponent == 0 {
        if fraction == 0 {
            0
        } else {
            let mut k: u64 = 0;
            let mut scaled: u64 = fraction;
            while scaled < 0x80_0000
                invariant
                    0 < scaled < 0x100_0000,
                    k <= 23,
                    scaled >= pow2(k as nat),
                    scaled == fraction * pow2(k as nat),
                    doublings(fraction as nat) == k + doublings(scaled as nat),
                decreases 0x100_0000 - scaled,
            {
                proof {
                    lemma_pow2_bound(k as nat);
                    if k >= 23 {
                        lemma_pow2_large(k as nat);
                    }
                    assert(fraction * pow2((k + 1) as nat) == 2 * (fraction * pow2(k as nat)))
                        by (nonlinear_arith)
                        requires
                            pow2((k + 1) as nat) == 2 * pow2(k as nat),
                    ;
                }
                scaled = scaled * 2;
                k = k + 1;
            }
            assert(k >= 1);
            (897 - k) * 0x10_0000_0000_0000 + (scaled - 0x80_0000) * 0x2000_0000
        }
    } else {
        (exponent + 896) * 0x10_0000_0000_0000 + fraction * 0x2000_0000
    };
    sign * 0x8000_0000_0000_0000 + magnitude
}

/// How powers of two grow.
pub proof fn lemma_pow2_bound(k: nat)
    ensures
        pow2(k) >= 1,
        pow2(k + 1) == 2 * pow2(k),
    decreases k,
{
    reveal_with_fuel(pow2, 2);
    if k > 0 {
        lemma_pow2_bound((k - 1) as nat);
    }
}

/// From the 23rd on, powers of two reach `2^23`.
pub proof fn lemma_pow2_large(k: nat)
    requires
        k >= 23,
    ensures
        pow2(k) >= 0x80_0000,
    decreases k,
{
    if k == 23 {
        reveal_with_fuel(pow2, 24);
    } else {
        lemma_pow2_large((k - 1) as nat);
    }
}

/// How many binary digits `m` has.
pub open spec fn bit_length(m: nat) -> nat
    decreases m,
{
    if m == 0 {
        0
    } else {
        1 + bit_length(m / 2)
    }
}

/// `m` divided by `2^s`, to the nearest whole number; of two that are
/// equally near, to the even one.
pub open spec fn rounded(m: nat, s: nat) -> nat {
    let quotient = m / pow2(s);
    let rest = m % pow2(s);
    let half = pow2((s - 1) as nat);
    if rest > half || (rest == half && quotient % 2 == 1) {
        quotient + 1
    } else {
        quotient
    }
}

/// The bits of the binary64 number nearest to the whole number `m`, for
/// `m` below `2^64`.
pub open spec fn double_of_natural(m: nat) -> u64 {
    let length = bit_length(m);
    if m == 0 {
        0
    } else if length <= 53 {
        ((1021 + length) * 0x10_0000_0000_0000 + m * pow2((53 - length) as nat)) as u64
    } else {
        ((1021 + length) * 0x10_0000_0000_0000 + rounded(m, (length - 53) as nat)) as u64
    }
}

/// The bits of the binary64 number that a JSON number is read as.
pub open spec fn double_of_number(n: Number) -> u64 {
    match n {
        Number::Float(bits) => bits,
        Number::PosInt(u) => double_of_natural(u as nat),
        Number::NegInt(i) => if i < 0 {
            (0x8000_0000_0000_0000 + double_of_natural((-i) as nat)) as u64
        } else {
            double_of_natural(i as nat)
        },
    }
}

/// The bits of the binary32 number nearest to the finite binary64 number
/// with the bits `bits`; the bits of an infinite one where that number is
/// too large.
pub open spec fn single_of_double(bits: u64) -> u32 {
    let sign = (bits / 0x8000_0000_0000_0000) as int;
    let exponent = ((bits / 0x10_0000_0000_0000) % 0x800) as int;
    let significand = (0x10_0000_0000_0000 + bits % 0x10_0000_0000_0000) as nat;
    let magnitude: int = if exponent == 0 {
        0
    } else if exponent >= 897 {
        let exact = (exponent - 897) * 0x80_0000 + rounded(significand, 29);
        if exact >= 0x7f80_0000 {
            0x7f80_0000
        } else {
            exact
        }
    } else if 926 - exponent > 63 {
        0
    } else {
        rounded(significand, (926 - exponent) as nat) as int
    };
    (sign * 0x8000_0000 + magnitude) as u32
}

/// Powers of two do not fall.
pub proof fn lemma_pow2_rises(a: nat, b: nat)
    requires
        a <= b,
    ensures
        pow2(a) <= pow2(b),
    decreases b,
{
    if a < b {
        lemma_pow2_rises(a, (b - 1) as nat);
    }
}

/// Some powers of two.
pub proof fn lemma_pow2_values()
    ensures
        pow2(0) == 1,
        pow2(1) == 2,
        pow2(29) == 0x2000_0000,
        pow2(30) == 0x4000_0000,
        pow2(53) == 0x20_0000_0000_0000,
        pow2(63) == 0x8000_0000_0000_0000,
        pow2(64) == 0x1_0000_0000_0000_0000,
{
    reveal_with_fuel(pow2, 65);
}

/// `2` to the power `k`.
fn two_to(k: u32) -> (r: u64)
    requires
        k <= 63,
    ensures
        r == pow2(k as nat),
        r >= 1,
{
    let mut r: u64 = 1;
    let mut i: u32 = 0;
    while i < k
        invariant
            i <= k <= 63,
            r == pow2(i as nat),
            r >= 1,
        decreases k - i,
    {
        proof {
            lemma_pow2_rises((i + 1) as nat, 63);
            lemma_pow2_values();
            lemma_pow2_bound(i as nat);
        }
        r = r * 2;
        i += 1;
    }
    r
}

/// `m` divided by `2^s`, to the nearest whole number; of two that are
/// equally near, to the even one.
fn round_shift(m: u64, s: u32) -> (r: u64)
    requires
        1 <= s <= 63,
    ensures
        r == rounded(m as nat, s as nat),
        r <= m / 2 + 1,
        r <= m / (pow2(s as nat) as u64) + 1,
{
    let whole = two_to(s);
    let half = two_to(s - 1);
    proof {
        lemma_pow2_bound((s - 1) as nat);
        lemma_div_is_ordered_by_denominator(m as int, 2, whole as int);
    }
    let quotient = m / whole;
    let rest = m % whole;
    if rest > half || (rest == half && quotient % 2 == 1) {
        quotient + 1
    } else {
        quotient
    }
}

/// How many binary digits `m` has.
fn length_of(m: u64) -> (length: u32)
    ensures
        length == bit_length(m as nat),
        length <= 64,
        m > 0 ==> length >= 1,
{
    let mut rest: u64 = m;
    let mut length: u32 = 0;
    proof {
        lemma_pow2_values();
    }
    while rest > 0
        invariant
            length <= 64,
            rest < pow2((64 - length) as nat),
            bit_length(m as nat) == length + bit_length(rest as nat),
            m > 0 && rest == 0 ==> length >= 1,
        decreases rest,
    {
        proof {
            if length == 64 {
                assert(pow2(0) == 1);
            } else {
                lemma_pow2_bound((63 - length) as nat);
            }
        }
        rest = rest / 2;
        length += 1;
    }
    length
}

/// The bits of the binary64 number nearest to `m`.
pub fn natural_to_double(m: u64) -> (r: u64)
    ensures
        r == double_of_natural(m as nat),
{
    if m == 0 {
        return 0;
    }
    let length = length_of(m);
    if length <= 53 {
        let scale = two_to(53 - length);
        proof {
            lemma_scaled_fits(m as nat, length as nat);
        }
        (1021 + length as u64) * 0x10_0000_0000_0000 + m * scale
    } else {
        let part = round_shift(m, length - 53);
        proof {
            lemma_rounded_fits(m as nat, length as nat);
        }
        (1021 + length as u64) * 0x10_0000_0000_0000 + part
    }
}

/// A number is below the power of two that its number of digits gives.
pub proof fn lemma_bit_length(m: nat)
    ensures
        m < pow2(bit_length(m)),
        m > 0 ==> pow2((bit_length(m) - 1) as nat) <= m,
    decreases m,
{
    if m > 0 {
        lemma_bit_length(m / 2);
        lemma_pow2_bound(bit_length(m / 2));
        if m / 2 > 0 {
            lemma_pow2_bound((bit_length(m / 2) - 1) as nat);
        }
    }
}

/// The power of two of a sum is the product of the powers.
pub proof fn lemma_pow2_sum(a: nat, b: nat)
    ensures
        pow2(a + b) == pow2(a) * pow2(b),
    decreases b,
{
    if b == 0 {
        assert(pow2(a) * 1 == pow2(a));
    } else {
        lemma_pow2_sum(a, (b - 1) as nat);
        lemma_pow2_bound((a + b - 1) as nat);
        lemma_pow2_bound((b - 1) as nat);
        assert(2 * (pow2(a) * pow2((b - 1) as nat)) == pow2(a) * (2 * pow2((b - 1) as nat)))
            by (nonlinear_arith);
    }
}

/// A number of at most 53 binary digits, moved up to 53 digits, stays
/// below `2^53`.
pub proof fn lemma_scaled_fits(m: nat, length: nat)
    requires
        length == bit_length(m),
        length <= 53,
    ensures
        m * pow2((53 - length) as nat) < 0x20_0000_0000_0000,
{
    lemma_bit_length(m);
    lemma_pow2_sum(length, (53 - length) as nat);
    lemma_pow2_values();
    let scale = pow2((53 - length) as nat);
    lemma_pow2_bound((53 - length) as nat);
    assert(m * scale < pow2(length) * scale) by (nonlinear_arith)
        requires
            m < pow2(length),
            scale >= 1,
    ;
}

/// A number of more than 53 binary digits, rounded to 53 digits, is at
/// most `2^53`.
pub proof fn lemma_rounded_fits(m: nat, length: nat)
    requires
        length == bit_length(m),
        length > 53,
    ensures
        rounded(m, (length - 53) as nat) <= 0x20_0000_0000_0000,
{
    lemma_bit_length(m);
    lemma_pow2_sum((length - 53) as nat, 53);
    lemma_pow2_values();
    let cut = pow2((length - 53) as nat);
    lemma_pow2_bound((length - 53) as nat);
    assert(m < cut * 0x20_0000_0000_0000);
    lemma_multiply_divide_lt(m as int, cut as int, 0x20_0000_0000_0000);
    assert(m / cut < 0x20_0000_0000_0000);
}

/// The bits of the binary64 number nearest to a whole number below `2^64`
/// have no sign bit and are those of a finite number.
pub proof fn lemma_double_of_natural_bound(m: nat)
    requires
        m <= u64::MAX,
    ensures
        double_of_natural(m) < 0x43f0_0000_0000_0001,
{
    let length = bit_length(m);
    lemma_bit_length(m);
    lemma_pow2_values();
    if length > 64 {
        lemma_pow2_rises(64, (length - 1) as nat);
    }
    if m > 0 {
        if length <= 53 {
            lemma_scaled_fits(m, length);
        } else {
            lemma_rounded_fits(m, length);
        }
    }
}

/// The bits of the binary64 number that a JSON number is read as.
pub fn number_to_double(n: &Number) -> (r: u64)
    ensures
        r == double_of_number(*n),
{
    match n {
        Number::Float(bits) => *bits,
        Number::PosInt(u) => natural_to_double(*u),
        Number::NegInt(i) => {
            if *i < 0 {
                let magnitude: u64 = if *i == i64::MIN {
                    0x8000_0000_0000_0000
                } else {
                    (-*i) as u64
                };
                let bits = natural_to_double(magnitude);
                proof {
                    lemma_double_of_natural_bound(magnitude as nat);
                }
                0x8000_0000_0000_0000 + bits
            } else {
                natural_to_double(*i as u64)
            }
        },
    }
}

/// The bits of the binary32 number nearest to the finite binary64 number
/// with the bits `bits`; the bits of an infinite one where that number is
/// too large.
pub fn narrow(bits: u64) -> (r: u32)
    ensures
        r == single_of_double(bits),
{
    let sign: u64 = bits / 0x8000_0000_0000_0000;
    let exponent: u64 = (bits / 0x10_0000_0000_0000) % 0x800;
    let significand: u64 = 0x10_0000_0000_0000 + bits % 0x10_0000_0000_0000;
    proof {
        lemma_pow2_values();
    }
    let magnitude: u64 = if exponent == 0 {
        0
    } else if exponent >= 897 {
        let part = round_shift(significand, 29);
        let exact = (exponent - 897) * 0x80_0000 + part;
        if exact >= 0x7f80_0000 {
            0x7f80_0000
        } else {
            exact
        }
    } else if 926 - exponent > 63 {
        0
    } else {
        proof {
            lemma_pow2_rises(30, (926 - exponent) as nat);
            lemma_div_is_ordered_by_denominator(
                significand as int,
                0x4000_0000,
                pow2((926 - exponent) as nat) as int,
            );
        }
        round_shift(significand, (926 - exponent) as u32)
    };
    (sign * 0x8000_0000 + magnitude) as u32
}

/// A multiple of a power of two, divided by that power and rounded, is the
/// factor.
pub proof fn lemma_rounded_multiple(factor: nat, s: nat)
    requires
        s >= 1,
    ensures
        rounded(factor * pow2(s), s) == factor,
{
    let whole = pow2(s);
    lemma_pow2_bound(s);
    lemma_pow2_bound((s - 1) as nat);
    lemma_div_multiples_vanish(factor as int, whole as int);
    lemma_mod_multiples_basic(factor as int, whole as int);
    assert(factor * whole == whole * factor) by (nonlinear_arith);
}

/// How far a fraction is doubled, and what it comes to.
pub proof fn lemma_doublings(fraction: nat)
    requires
        0 < fraction < 0x80_0000,
    ensures
        1 <= doublings(fraction) <= 23,
        0x80_0000 <= fraction * pow2(doublings(fraction)) < 0x100_0000,
    decreases 0x80_0000 - fraction,
{
    let k = doublings(2 * fraction);
    lemma_pow2_values();
    lemma_pow2_bound(k);
    if 2 * fraction < 0x80_0000 {
        lemma_doublings(2 * fraction);
    }
    assert(fraction * pow2(k + 1) == (2 * fraction) * pow2(k)) by (nonlinear_arith)
        requires
            pow2(k + 1) == 2 * pow2(k),
    ;
    assert((2 * fraction) * pow2(0) == 2 * fraction) by (nonlinear_arith)
        requires
            pow2(0) == 1,
    ;
    if k + 1 >= 24 {
        lemma_pow2_large(k);
        assert(fraction * pow2(k + 1) >= pow2(k + 1)) by (nonlinear_arith)
            requires
                fraction >= 1,
        ;
    }
}

/// A binary32 number, taken to binary64 and back, is the same number: the
/// binary64 number that equals it has it as its nearest.
pub proof fn lemma_narrow_widened(bits: u32)
    requires
        is_finite_single(bits),
    ensures
        is_finite_double(double_of_single(bits)),
        single_of_double(double_of_single(bits)) == bits,
{
    let sign = (bits / 0x8000_0000) as int;
    let exponent = ((bits / 0x80_0000) % 0x100) as int;
    let fraction = (bits % 0x80_0000) as int;
    let wide = double_of_single(bits);
    lemma_pow2_values();
    if exponent == 0 {
        if fraction != 0 {
            let k = doublings(fraction as nat);
            lemma_doublings(fraction as nat);
            let scaled = fraction * pow2(k);
            let magnitude = (897 - k) * 0x10_0000_0000_0000 + (scaled - 0x80_0000) * 0x2000_0000;
            assert(wide == sign * 0x8000_0000_0000_0000 + magnitude);
            assert((wide / 0x10_0000_0000_0000) % 0x800 == 897 - k);
            assert(wide % 0x10_0000_0000_0000 == (scaled - 0x80_0000) * 0x2000_0000);
            assert(wide / 0x8000_0000_0000_0000 == sign);
            let significand = (0x10_0000_0000_0000 + (scaled - 0x80_0000) * 0x2000_0000) as nat;
            lemma_pow2_sum(k, 29);
            assert(significand == fraction * pow2(k + 29)) by (nonlinear_arith)
                requires
                    significand == scaled * 0x2000_0000,
                    scaled == fraction * pow2(k),
                    pow2(k + 29) == pow2(k) * 0x2000_0000,
            ;
            lemma_rounded_multiple(fraction as nat, k + 29);
            assert(926 - (897 - k) == k + 29);
        }
    } else {
        let magnitude = (exponent + 896) * 0x10_0000_0000_0000 + fraction * 0x2000_0000;
        assert(wide == sign * 0x8000_0000_0000_0000 + magnitude);
        assert((wide / 0x10_0000_0000_0000) % 0x800 == exponent + 896);
        assert(wide % 0x10_0000_0000_0000 == fraction * 0x2000_0000);
        assert(wide / 0x8000_0000_0000_0000 == sign);
        let significand = (0x10_0000_0000_0000 + fraction * 0x2000_0000) as nat;
        assert(significand == (0x80_0000 + fraction) * pow2(29));
        lemma_rounded_multiple((0x80_0000 + fraction) as nat, 29);
    }
}

} // verus!

//! What floating-point operations give, in terms of the values of numbers: the number that is
//! nearest to the exact result and, of two that are equally near, the even one.

use crate::binary_float::{
    exponent_of, lemma_bracket, lemma_parts, lemma_representable, lemma_magnitude_of_parts,
    lemma_magnitude_order, lemma_magnitude_small, lemma_nearest_exact, lemma_nearest_in_bracket,
    lemma_nearest_monotone, magnitude, nearest, rounded, signed_value, significand_of, Format,
    Pattern,
};
use crate::double::{double_format, lemma_double_plus_pattern, widened, Double, DOUBLE_INFINITY};
use crate::single::{
    lemma_plus_pattern, lemma_single_format, single_format, Single, SINGLE_INFINITY,
};
use vstd::arithmetic::power2::{
    lemma2_to64, lemma2_to64_rest, lemma_pow2_adds, lemma_pow2_pos, pow2,
};
use vstd::prelude::*;

verus! {

/// How far two whole numbers are apart.
pub open spec fn distance(a: int, b: int) -> int {
    if a < b {
        b - a
    } else {
        a - b
    }
}

/// The code chosen is as near as any other, and even where another is as near.
pub proof fn law_nearest_is_nearest(f: Format, num: nat, den: nat, other: nat)
    requires
        den > 0,
        other <= f.infinity,
    ensures
        nearest(f, num, den) <= f.infinity,
        distance((magnitude(f, nearest(f, num, den)) * den) as int, num as int) <= distance(
            (magnitude(f, other) * den) as int,
            num as int,
        ),
        distance((magnitude(f, nearest(f, num, den)) * den) as int, num as int) == distance(
            (magnitude(f, other) * den) as int,
            num as int,
        ) && other != nearest(f, num, den) ==> nearest(f, num, den) % 2 == 0,
{
    let below = lemma_bracket(f, num, den);
    lemma_nearest_in_bracket(f, num, den, below);
    lemma_nearest_monotone(f, num, num, den);
    let found = nearest(f, num, den);
    let low = magnitude(f, below) * den;
    let high = magnitude(f, below + 1) * den;
    assert((magnitude(f, below) + magnitude(f, below + 1)) * den == low + high) by (nonlinear_arith)
        requires
            low == magnitude(f, below) * den,
            high == magnitude(f, below + 1) * den,
    ;
    lemma_magnitude_order(f, other, below);
    lemma_magnitude_order(f, below, other);
    lemma_magnitude_order(f, other, below + 1);
    lemma_magnitude_order(f, below + 1, other);
    lemma_magnitude_order(f, other, f.infinity);
    lemma_magnitude_order(f, f.infinity, below);
    let there = magnitude(f, other) * den;
    if other < below {
        lemma_scaled(magnitude(f, other), magnitude(f, below), den);
    }
    if other > below + 1 {
        lemma_scaled(magnitude(f, below + 1), magnitude(f, other), den);
    }
    if below >= f.infinity {
        if f.infinity < below {
            lemma_scaled(magnitude(f, f.infinity), magnitude(f, below), den);
        }
        if other < f.infinity {
            lemma_magnitude_order(f, other, f.infinity);
            lemma_scaled(magnitude(f, other), magnitude(f, f.infinity), den);
        }
    }
}

proof fn lemma_scaled(a: nat, b: nat, den: nat)
    requires
        a < b,
        den > 0,
    ensures
        a * den < b * den,
{
    assert(a * den < b * den) by (nonlinear_arith)
        requires
            a < b,
            den > 0,
    ;
}

/// Rounding a whole number of units gives a number as near as any other.
proof fn lemma_rounded_is_nearest(f: Format, v: int, zero_sign: bool, other: Pattern)
    requires
        f.infinity > 0,
        other.code <= f.infinity,
    ensures
        rounded(f, v, zero_sign).code <= f.infinity,
        distance(signed_value(f, rounded(f, v, zero_sign)), v) <= distance(
            signed_value(f, other),
            v,
        ),
        distance(signed_value(f, rounded(f, v, zero_sign)), v) == distance(
            signed_value(f, other),
            v,
        ) && signed_value(f, other) != signed_value(f, rounded(f, v, zero_sign)) ==> rounded(
            f,
            v,
            zero_sign,
        ).code % 2 == 0,
{
    lemma_magnitude_small(f);
    lemma_magnitude_order(f, 0, other.code);
    let n = (if v < 0 {
        -v
    } else {
        v
    }) as nat;
    law_nearest_is_nearest(f, n, 1, other.code);
    law_nearest_is_nearest(f, n, 1, 0);
    assert(magnitude(f, other.code) * 1 == magnitude(f, other.code));
    assert(magnitude(f, nearest(f, n, 1)) * 1 == magnitude(f, nearest(f, n, 1)));
    assert(magnitude(f, 0) * 1 == 0);
}

/// The sum of two finite single-precision numbers: as near to the exact sum as any number is, and
/// of two equally near the even one; infinity counts as the value that would follow the largest
/// one. A sum of zero is positive, unless both numbers are negative.
pub proof fn law_single_sum(a: Single, b: Single, other: Single)
    requires
        a.pattern().code < SINGLE_INFINITY,
        b.pattern().code < SINGLE_INFINITY,
        !other.nan(),
    ensures
        !a.plus(b).nan(),
        distance(a.plus(b).value(), a.value() + b.value()) <= distance(
            other.value(),
            a.value() + b.value(),
        ),
        distance(a.plus(b).value(), a.value() + b.value()) == distance(
            other.value(),
            a.value() + b.value(),
        ) && other.value() != a.plus(b).value() ==> a.plus(b).bits % 2 == 0,
        a.value() + b.value() == 0 ==> a.plus(b).bits == (if a.bits >= 0x8000_0000 && b.bits
            >= 0x8000_0000 {
            0x8000_0000
        } else {
            0u32
        }),
        a.value() + b.value() < 0 ==> a.plus(b).bits >= 0x8000_0000,
        a.value() + b.value() > 0 ==> a.plus(b).bits < 0x8000_0000,
{
    let f = single_format();
    lemma_plus_pattern(a, b);
    let v = a.value() + b.value();
    lemma_rounded_is_nearest(
        f,
        v,
        a.pattern().negative && b.pattern().negative,
        other.pattern(),
    );
}

/// Sums of single-precision numbers that are not finite.
pub proof fn law_single_sum_of_others(a: Single, b: Single)
    ensures
        a.nan() || b.nan() ==> a.plus(b).nan(),
        !b.nan() && a.bits == 0x7f80_0000 ==> a.plus(b).nan() == (b.bits == 0xff80_0000),
        !b.nan() && a.bits == 0x7f80_0000 && b.bits != 0xff80_0000 ==> a.plus(b) == a,
        !b.nan() && a.bits == 0xff80_0000 ==> a.plus(b).nan() == (b.bits == 0x7f80_0000),
        !b.nan() && a.bits == 0xff80_0000 && b.bits != 0x7f80_0000 ==> a.plus(b) == a,
        a.plus(b) == b.plus(a),
{
    crate::single::lemma_plus_commutes(a, b);
    if a.nan() || b.nan() {
        crate::single::lemma_nan_sum(a, b);
    }
    reveal(Single::plus);
    lemma_single_format();
}

/// The sum of two finite double-precision numbers: as near to the exact sum as any number is, and
/// of two equally near the even one.
pub proof fn law_double_sum(a: Double, b: Double, other: Double)
    requires
        a.pattern().code < DOUBLE_INFINITY,
        b.pattern().code < DOUBLE_INFINITY,
        !other.nan(),
    ensures
        !a.plus(b).nan(),
        distance(a.plus(b).value(), a.value() + b.value()) <= distance(
            other.value(),
            a.value() + b.value(),
        ),
        distance(a.plus(b).value(), a.value() + b.value()) == distance(
            other.value(),
            a.value() + b.value(),
        ) && other.value() != a.plus(b).value() ==> a.plus(b).bits % 2 == 0,
        a.value() + b.value() == 0 ==> a.plus(b).bits == (if a.bits >= 0x8000_0000_0000_0000
            && b.bits >= 0x8000_0000_0000_0000 {
            0x8000_0000_0000_0000
        } else {
            0u64
        }),
        a.value() + b.value() < 0 ==> a.plus(b).bits >= 0x8000_0000_0000_0000,
        a.value() + b.value() > 0 ==> a.plus(b).bits < 0x8000_0000_0000_0000,
{
    let f = double_format();
    lemma_double_plus_pattern(a, b);
    let v = a.value() + b.value();
    lemma_rounded_is_nearest(
        f,
        v,
        a.pattern().negative && b.pattern().negative,
        other.pattern(),
    );
}

/// The value of a single-precision number, in units of the least positive one, from its bits.
pub proof fn law_single_value(a: Single)
    requires
        !a.nan(),
    ensures
        ({
            let code = a.bits % 0x8000_0000;
            let size = if code < 0x80_0000 {
                code as int
            } else {
                (0x80_0000 + code % 0x80_0000) * pow2((code / 0x80_0000 - 1) as nat)
            };
            a.value() == if a.bits < 0x8000_0000 { size } else { -size }
        }),
{
    lemma2_to64();
}

/// The value of a double-precision number, in units of the least positive one, from its bits.
pub proof fn law_double_value(a: Double)
    requires
        !a.nan(),
    ensures
        ({
            let code = a.bits % 0x8000_0000_0000_0000;
            let size = if code < 0x10_0000_0000_0000 {
                code as int
            } else {
                (0x10_0000_0000_0000 + code % 0x10_0000_0000_0000) * pow2(
                    (code / 0x10_0000_0000_0000 - 1) as nat,
                )
            };
            a.value() == if a.bits < 0x8000_0000_0000_0000 { size } else { -size }
        }),
{
    lemma2_to64();
    lemma2_to64_rest();
}

/// One number is above another exactly where both are numbers and its value is larger.
pub proof fn law_comparisons(a: Single, b: Single, c: Double, d: Double)
    ensures
        a.exceeds(b) <==> !a.nan() && !b.nan() && a.value() > b.value(),
        c.exceeds(d) <==> !c.nan() && !d.nan() && c.value() > d.value(),
        c.same_number(d) <==> !c.nan() && !d.nan() && c.value() == d.value(),
        a.negated().value() == -a.value(),
        a.negated().nan() == a.nan(),
        a.negated() != a,
{
    reveal(Single::exceeds);
    reveal(Double::exceeds);
}

/// The quotient of two finite single-precision numbers, the second not zero: as near to the exact
/// quotient as any number is, and of two equally near the even one. Values are compared once both
/// are multiplied by the second number.
pub proof fn law_single_quotient(a: Single, b: Single, other: nat)
    requires
        a.pattern().code < SINGLE_INFINITY,
        0 < b.pattern().code < SINGLE_INFINITY,
        other <= SINGLE_INFINITY,
    ensures
        ({
            let f = single_format();
            let found = a.over(b).pattern();
            let exact = magnitude(f, a.pattern().code) * pow2(149);
            let by = magnitude(f, b.pattern().code);
            let near = distance((magnitude(f, found.code) * by) as int, exact as int);
            let far = distance((magnitude(f, other) * by) as int, exact as int);
            &&& found.negative == (a.pattern().negative != b.pattern().negative)
            &&& found.code <= SINGLE_INFINITY
            &&& near <= far
            &&& near == far && other != found.code ==> found.code % 2 == 0
        }),
{
    reveal(Single::over);
    let f = single_format();
    let by = magnitude(f, b.pattern().code);
    let exact = magnitude(f, a.pattern().code) * pow2(149);
    lemma_magnitude_small(f);
    lemma_magnitude_order(f, 0, b.pattern().code);
    law_nearest_is_nearest(f, exact, by, other);
}

/// A double-precision number rounded to single precision: as near as any number is, and of two
/// equally near the even one; signs, infinities and what is not a number stay.
pub proof fn law_narrowed(a: Double, other: nat)
    requires
        other <= SINGLE_INFINITY,
    ensures
        a.nan() ==> a.narrowed().nan(),
        !a.nan() ==> !a.narrowed().nan() && a.narrowed().pattern().negative == a.pattern().negative,
        a.pattern().code == DOUBLE_INFINITY ==> a.narrowed().pattern().code == SINGLE_INFINITY,
        a.pattern().code < DOUBLE_INFINITY ==> {
            let f = single_format();
            let found = a.narrowed().pattern().code;
            let exact = magnitude(double_format(), a.pattern().code);
            let near = distance((magnitude(f, found) * pow2(925)) as int, exact as int);
            let far = distance((magnitude(f, other) * pow2(925)) as int, exact as int);
            &&& near <= far
            &&& near == far && other != found ==> found % 2 == 0
        },
{
    reveal(Double::narrowed);
    lemma_pow2_pos(925);
    if a.pattern().code < DOUBLE_INFINITY {
        law_nearest_is_nearest(
            single_format(),
            magnitude(double_format(), a.pattern().code),
            pow2(925),
            other,
        );
    }
}

/// A single-precision number in double precision is the same number: its value, in units of the
/// least positive double-precision number, is as many times larger as those units are smaller.
pub proof fn law_widened(a: Single)
    ensures
        a.nan() ==> widened(a).nan(),
        a.pattern().code == SINGLE_INFINITY ==> widened(a).pattern() == (Pattern {
            negative: a.pattern().negative,
            code: DOUBLE_INFINITY as nat,
        }),
        a.pattern().code < SINGLE_INFINITY ==> {
            &&& widened(a).pattern().code < DOUBLE_INFINITY
            &&& widened(a).pattern().negative == a.pattern().negative
            &&& widened(a).value() == a.value() * pow2(925)
        },
        a.bits == 0 ==> widened(a).bits == 0,
{
    reveal(widened);
    lemma2_to64();
    lemma2_to64_rest();
    let f = single_format();
    let d = double_format();
    let code = a.pattern().code;
    if code < SINGLE_INFINITY {
        lemma_parts(f, code);
        let q = significand_of(f, code);
        let e = exponent_of(f, code);
        lemma_pow2_adds(e, 925);
        let p = pow2(e);
        let r = pow2(925);
        assert((q * p) * r == q * (p * r)) by (nonlinear_arith);
        let wide = lemma_representable(d, q, e + 925);
        let unit = pow2(52);
        assert(e <= 253);
        assert((e + 925 + 2) * unit <= 1180 * unit) by (nonlinear_arith)
            requires
                e <= 253,
        ;
        lemma_nearest_exact(d, magnitude(f, code) * r, 1, wide);
        assert(magnitude(d, wide) * 1 == magnitude(d, wide));
        assert(-(magnitude(f, code) as int) * r == -((magnitude(f, code) * r) as int))
            by (nonlinear_arith);
        if code == 0 {
            lemma_magnitude_small(f);
            lemma_magnitude_small(d);
            lemma_nearest_exact(d, 0, 1, 0);
            assert(0 * r == 0);
        }
    }
}

/// A natural number as a single-precision number: as near as any number is, and of two equally
/// near the even one.
pub proof fn law_of_natural(n: nat, other: nat)
    requires
        other <= SINGLE_INFINITY,
    ensures
        ({
            let f = single_format();
            let found = Single::of_natural(n).pattern();
            let exact = n * pow2(149);
            let near = distance(magnitude(f, found.code) as int, exact as int);
            let far = distance(magnitude(f, other) as int, exact as int);
            &&& !found.negative
            &&& found.code <= SINGLE_INFINITY
            &&& near <= far
            &&& near == far && other != found.code ==> found.code % 2 == 0
        }),
{
    reveal(Single::of_natural);
    let f = single_format();
    law_nearest_is_nearest(f, n * pow2(149), 1, other);
    let code = nearest(f, n * pow2(149), 1);
    assert(magnitude(f, code) * 1 == magnitude(f, code));
    assert(magnitude(f, other) * 1 == magnitude(f, other));
}

/// What unknown characters score below the lowest score is ten.
pub proof fn law_penalty_is_ten()
    ensures
        (Double { bits: 0xc024_0000_0000_0000 }).value() == -(10 * pow2(1074)),
        crate::encoding::UNK_PENALTY == 0xc024_0000_0000_0000u64,
{
    let f = double_format();
    lemma2_to64();
    lemma2_to64_rest();
    lemma_pow2_adds(50, 1025);
    lemma_pow2_adds(1, 1074);
    lemma_magnitude_of_parts(f, 1025, 0x14_0000_0000_0000);
    let p = pow2(1025);
    assert(0x14_0000_0000_0000 * p == 5 * (0x4_0000_0000_0000 * p)) by (nonlinear_arith);
    assert(pow2(1075) == 2 * pow2(1074));
}

} // verus!

//! Single-precision scores.

use crate::binary_float::{
    exponent_of, greater, lemma_bracket, lemma_magnitude_of_parts, lemma_magnitude_order, lemma_magnitude_small,
    lemma_nearest_exact, lemma_nearest_in_bracket, lemma_nearest_monotone, lemma_nearest_positive,
    lemma_parts, lemma_representable, lemma_rounded_monotone, lemma_sum_commutes,
    lemma_sum_monotone, lemma_value_range, magnitude, nearest, quotient, signed_value,
    significand_of, sum, Format, Pattern,
};
use crate::float_arith::{add_finite, divide_finite, round_exact};
use crate::rounding::format_of;
use vstd::arithmetic::power2::{
    lemma2_to64, lemma_pow2_adds, lemma_pow2_pos, lemma_pow2_strictly_increases, lemma_pow2_unfold,
    pow2,
};
use vstd::prelude::*;

verus! {

/// The code of infinity, and the bit pattern of positive infinity.
pub const SINGLE_INFINITY: u32 = 0x7f80_0000;

/// The bit pattern of negative infinity.
pub const SINGLE_NEG_INFINITY: u32 = 0xff80_0000;

/// The bit pattern of one.
pub const SINGLE_ONE: u32 = 0x3f80_0000;

/// The bit pattern of the NaN that operations give.
pub const SINGLE_NAN: u32 = 0x7fc0_0000;

/// A single-precision floating-point number, held as its bit pattern. Equality of two values
/// of this type is equality of their patterns.
#[derive(Clone, Copy, Debug, PartialEq, Eq, Structural)]
pub struct Single {
    pub bits: u32,
}

pub open spec fn single_format() -> Format {
    Format { fraction_bits: 23, infinity: SINGLE_INFINITY as nat }
}

/// The single-precision number with a given sign and code.
pub open spec fn single_of(p: Pattern) -> Single {
    Single {
        bits: if p.negative {
            (0x8000_0000 + p.code) as u32
        } else {
            p.code as u32
        },
    }
}

impl Single {
    pub open spec fn pattern(self) -> Pattern {
        Pattern {
            negative: self.bits >= 0x8000_0000,
            code: (self.bits % 0x8000_0000) as nat,
        }
    }

    pub open spec fn nan(self) -> bool {
        self.pattern().code > SINGLE_INFINITY
    }

    /// The value, in units of the least positive one; of a number that is no NaN.
    pub open spec fn value(self) -> int {
        signed_value(single_format(), self.pattern())
    }

    /// The correctly rounded sum.
    #[verifier::opaque]
    pub open spec fn plus(self, other: Single) -> Single {
        single_of(sum(single_format(), self.pattern(), other.pattern()))
    }

    /// The correctly rounded quotient.
    #[verifier::opaque]
    pub open spec fn over(self, other: Single) -> Single {
        single_of(quotient(single_format(), pow2(149), self.pattern(), other.pattern()))
    }

    /// The number with the opposite sign.
    pub open spec fn negated(self) -> Single {
        Single {
            bits: if self.bits >= 0x8000_0000 {
                (self.bits - 0x8000_0000) as u32
            } else {
                (self.bits + 0x8000_0000) as u32
            },
        }
    }

    /// The comparison `self > other`.
    #[verifier::opaque]
    pub open spec fn exceeds(self, other: Single) -> bool {
        greater(single_format(), self.pattern(), other.pattern())
    }

    /// The number nearest to a natural number.
    #[verifier::opaque]
    pub open spec fn of_natural(n: nat) -> Single {
        single_of(
            Pattern { negative: false, code: nearest(single_format(), n * pow2(149), 1) },
        )
    }

    /// Positive zero.
    pub fn zero() -> (zero: Single)
        ensures
            zero.bits == 0,
    {
        Single { bits: 0 }
    }

    /// Negative infinity.
    pub fn neg_infinity() -> (result: Single)
        ensures
            result.bits == SINGLE_NEG_INFINITY,
    {
        Single { bits: SINGLE_NEG_INFINITY }
    }

    /// Whether this is negative infinity.
    pub fn is_neg_infinity(&self) -> (result: bool)
        ensures
            result == (self.bits == SINGLE_NEG_INFINITY),
    {
        self.bits == SINGLE_NEG_INFINITY
    }

    fn negative(&self) -> (result: bool)
        ensures
            result == self.pattern().negative,
    {
        self.bits >= 0x8000_0000
    }

    fn code(&self) -> (code: u64)
        ensures
            code == self.pattern().code,
            code < 0x8000_0000,
    {
        (self.bits % 0x8000_0000) as u64
    }

    fn from_parts(negative: bool, code: u64) -> (result: Single)
        requires
            code < 0x8000_0000,
        ensures
            result == single_of(Pattern { negative, code: code as nat }),
    {
        if negative {
            Single { bits: 0x8000_0000 + code as u32 }
        } else {
            Single { bits: code as u32 }
        }
    }

    /// `self + other`.
    pub fn add(&self, other: &Single) -> (result: Single)
        ensures
            result == self.plus(*other),
    {
        proof {
            reveal(Single::plus);
            lemma_single_format();
        }
        let infinity: u64 = SINGLE_INFINITY as u64;
        let a: u64 = self.code();
        let b: u64 = other.code();
        if a > infinity || b > infinity {
            return Single { bits: SINGLE_NAN };
        }
        if a == infinity {
            if b == infinity && self.negative() != other.negative() {
                return Single { bits: SINGLE_NAN };
            }
            return Single { bits: self.bits };
        }
        if b == infinity {
            return Single { bits: other.bits };
        }
        let (negative, code) = add_finite(
            23,
            infinity,
            self.negative(),
            a,
            other.negative(),
            b,
        );
        Single::from_parts(negative, code)
    }

    /// `-self`.
    pub fn neg(&self) -> (result: Single)
        ensures
            result == self.negated(),
    {
        if self.bits >= 0x8000_0000 {
            Single { bits: self.bits - 0x8000_0000 }
        } else {
            Single { bits: self.bits + 0x8000_0000 }
        }
    }

    /// `self / other`.
    pub fn div(&self, other: &Single) -> (result: Single)
        ensures
            result == self.over(*other),
    {
        proof {
            reveal(Single::over);
            lemma_single_format();
        }
        let infinity: u64 = SINGLE_INFINITY as u64;
        let a: u64 = self.code();
        let b: u64 = other.code();
        let negative: bool = self.negative() != other.negative();
        if a > infinity || b > infinity || (a == infinity && b == infinity) || (a == 0 && b
            == 0) {
            return Single { bits: SINGLE_NAN };
        }
        if a == infinity || b == 0 {
            return Single::from_parts(negative, infinity);
        }
        if b == infinity {
            return Single::from_parts(negative, 0);
        }
        if a == 0 {
            proof {
                let f = single_format();
                lemma_magnitude_small(f);
                lemma_magnitude_order(f, 0, b as nat);
                let vb = magnitude(f, b as nat);
                lemma_nearest_exact(f, 0, vb, 0);
                assert(magnitude(f, 0) * pow2(149) == 0) by (nonlinear_arith)
                    requires
                        magnitude(f, 0) == 0,
                ;
            }
            return Single::from_parts(negative, 0);
        }
        let code: u64 = divide_finite(infinity, a, b);
        Single::from_parts(negative, code)
    }

    /// `self > other`.
    pub fn gt(&self, other: &Single) -> (result: bool)
        ensures
            result == self.exceeds(*other),
    {
        let infinity: u64 = SINGLE_INFINITY as u64;
        let a: u64 = self.code();
        let b: u64 = other.code();
        proof {
            reveal(Single::exceeds);
            let f = single_format();
            lemma_magnitude_order(f, a as nat, b as nat);
            lemma_magnitude_order(f, b as nat, a as nat);
            lemma_magnitude_order(f, 0, a as nat);
            lemma_magnitude_order(f, 0, b as nat);
            lemma_magnitude_small(f);
        }
        if a > infinity || b > infinity {
            return false;
        }
        match (self.negative(), other.negative()) {
            (false, false) => a > b,
            (true, true) => a < b,
            (false, true) => a > 0 || b > 0,
            (true, false) => false,
        }
    }

    /// The number nearest to `n`.
    pub fn from_u32(n: u32) -> (result: Single)
        ensures
            result == Single::of_natural(n as nat),
    {
        proof {
            reveal(Single::of_natural);
            lemma_single_format();
            lemma2_to64();
        }
        let code: u64 = round_exact(
            23,
            SINGLE_INFINITY as u64,
            n as u64,
            149,
            Ghost(n as nat * pow2(149)),
            Ghost(1),
            Ghost(0),
        );
        Single::from_parts(false, code)
    }
}

/// What exceeds anything is a number above negative infinity.
pub proof fn lemma_exceeds_is_above(a: Single, b: Single)
    requires
        a.exceeds(b),
    ensures
        a.bits != SINGLE_NEG_INFINITY,
        !a.nan(),
        !b.nan(),
        a.value() > b.value(),
        a.value() > (Single { bits: SINGLE_NEG_INFINITY }).value(),
{
    reveal(Single::exceeds);
    let f = single_format();
    lemma_magnitude_order(f, SINGLE_INFINITY as nat, b.pattern().code);
    lemma_magnitude_order(f, b.pattern().code, SINGLE_INFINITY as nat);
}

/// Sign and code of a sum.
pub proof fn lemma_plus_pattern(a: Single, b: Single)
    ensures
        a.plus(b).pattern() == sum(single_format(), a.pattern(), b.pattern()),
{
    reveal(Single::plus);
    lemma2_to64();
    let f = single_format();
    let v = signed_value(f, a.pattern()) + signed_value(f, b.pattern());
    lemma_rounded_monotone(f, v, v, a.pattern().negative && b.pattern().negative, false);
}

/// Adding the same weight keeps order: where the smaller sum is above negative infinity, so
/// is the larger.
pub proof fn lemma_plus_monotone(a: Single, b: Single, w: Single)
    requires
        !a.nan(),
        !b.nan(),
        a.value() <= b.value(),
        b.bits != SINGLE_NEG_INFINITY,
        !a.plus(w).nan(),
        a.plus(w).bits != SINGLE_NEG_INFINITY,
    ensures
        !b.plus(w).nan(),
        b.plus(w).bits != SINGLE_NEG_INFINITY,
        a.plus(w).value() <= b.plus(w).value(),
{
    let f = single_format();
    lemma_plus_pattern(a, w);
    lemma_plus_pattern(b, w);
    lemma_single_format();
    lemma_value_range(f, a.pattern());
    lemma_value_range(f, b.pattern());
    lemma_value_range(f, w.pattern());
    let v = b.value() + w.value();
    lemma_rounded_monotone(f, v, v, b.pattern().negative && w.pattern().negative, false);
    vstd::arithmetic::power2::lemma_pow2_pos(22);
    lemma_sum_monotone(f, a.pattern(), b.pattern(), w.pattern());
    lemma_value_range(f, a.plus(w).pattern());
    lemma_value_range(f, b.plus(w).pattern());
}

/// Adding positive zero changes no number but negative zero.
pub proof fn lemma_plus_zero(a: Single)
    requires
        !a.nan(),
        a.bits != 0x8000_0000,
    ensures
        a.plus(Single { bits: 0 }) == a,
{
    reveal(Single::plus);
    let f = single_format();
    let code = a.pattern().code;
    lemma_magnitude_small(f);
    lemma_magnitude_order(f, 0, code);
    lemma_nearest_exact(f, magnitude(f, code), 1, code);
}

/// Dividing by one changes nothing.
pub proof fn lemma_over_one(a: Single)
    requires
        !a.nan(),
    ensures
        a.over(Single { bits: SINGLE_ONE }) == a,
{
    reveal(Single::over);
    let f = single_format();
    let code = a.pattern().code;
    let one = (Single { bits: SINGLE_ONE }).pattern();
    lemma2_to64();
    lemma_pow2_pos(149);
    lemma_pow2_adds(23, 126);
    lemma_magnitude_of_parts(f, 126, pow2(23));
    assert(magnitude(f, one.code) == pow2(149));
    lemma_nearest_exact(f, magnitude(f, code) * pow2(149), pow2(149), code);
}

/// A sum of anything and a number other than negative zero is not negative zero.
pub proof fn lemma_plus_not_negative_zero(a: Single, b: Single)
    requires
        a.bits != 0x8000_0000,
    ensures
        a.plus(b).bits != 0x8000_0000,
{
    let f = single_format();
    lemma_plus_pattern(a, b);
    let v = signed_value(f, a.pattern()) + signed_value(f, b.pattern());
    lemma_magnitude_small(f);
    lemma_magnitude_order(f, 0, a.pattern().code);
    lemma_magnitude_order(f, 0, b.pattern().code);
    if v < 0 {
        let n = (-v) as nat;
        lemma_nearest_positive(f, n);
    }
}

/// A sum with something that is not a number is not a number.
pub proof fn lemma_nan_sum(a: Single, b: Single)
    requires
        a.nan() || b.nan(),
    ensures
        a.plus(b).nan(),
{
    lemma_plus_pattern(a, b);
    lemma_pow2_pos(22);
}

/// Adding to the same number keeps order, where neither sum is NaN.
pub proof fn lemma_plus_keeps_order(w: Single, a: Single, b: Single)
    requires
        !a.nan(),
        !b.nan(),
        a.value() <= b.value(),
        !w.plus(a).nan(),
        !w.plus(b).nan(),
    ensures
        w.plus(a).value() <= w.plus(b).value(),
{
    let f = single_format();
    lemma_plus_pattern(w, a);
    lemma_plus_pattern(w, b);
    lemma_sum_commutes(f, w.pattern(), a.pattern());
    lemma_sum_commutes(f, w.pattern(), b.pattern());
    lemma_sum_monotone(f, a.pattern(), b.pattern(), w.pattern());
}

/// A sum with a number that is not below zero is not below the other number.
pub proof fn lemma_plus_not_below(a: Single, c: Single)
    requires
        !c.nan(),
        c.value() >= 0,
        !a.plus(c).nan(),
    ensures
        a.value() <= a.plus(c).value(),
{
    let f = single_format();
    let zero = Single { bits: 0 };
    lemma_magnitude_small(f);
    if a.nan() {
        lemma_nan_sum(a, c);
    } else {
        lemma_plus_pattern(a, zero);
        lemma_value_range(f, a.pattern());
        lemma_nearest_exact(f, magnitude(f, a.pattern().code), 1, a.pattern().code);
        assert(!a.plus(zero).nan() && a.plus(zero).value() == a.value());
        lemma_plus_keeps_order(a, zero, c);
    }
}

/// The difference from a number that is at least as large is not above zero, where it is a
/// number.
pub proof fn lemma_difference_not_above_zero(low: Single, high: Single)
    requires
        !low.nan(),
        !high.nan(),
        low.value() <= high.value(),
    ensures
        low.plus(high.negated()).nan() || low.plus(high.negated()).value() <= 0,
{
    let f = single_format();
    lemma_plus_pattern(low, high.negated());
    lemma_magnitude_small(f);
    lemma_value_range(f, low.pattern());
    lemma_value_range(f, high.pattern());
    assert(high.negated().value() == -high.value());
    let v = low.value() - high.value();
    lemma_rounded_monotone(
        f,
        v,
        0,
        low.pattern().negative && high.negated().pattern().negative,
        false,
    );
    lemma_pow2_pos(22);
    lemma_magnitude_order(f, 0, SINGLE_INFINITY as nat);
}

/// A number that is not infinite.
pub open spec fn is_finite_single(a: Single) -> bool {
    a.pattern().code < SINGLE_INFINITY
}

/// A finite number added to a number gives a number.
pub proof fn lemma_finite_single_sum(a: Single, w: Single)
    requires
        !a.nan(),
        is_finite_single(w),
    ensures
        !a.plus(w).nan(),
{
    let f = single_format();
    lemma_plus_pattern(a, w);
    let v = a.value() + w.value();
    lemma_rounded_monotone(f, v, v, a.pattern().negative && w.pattern().negative, false);
}

/// Addition is commutative.
pub proof fn lemma_plus_commutes(a: Single, b: Single)
    ensures
        a.plus(b) == b.plus(a),
{
    reveal(Single::plus);
    lemma_sum_commutes(single_format(), a.pattern(), b.pattern());
}

/// A finite number is lost in negative infinity.
pub proof fn lemma_neg_infinity_absorbs(w: Single)
    requires
        is_finite_single(w),
    ensures
        (Single { bits: SINGLE_NEG_INFINITY }).plus(w).bits == SINGLE_NEG_INFINITY,
{
    reveal(Single::plus);
}

/// Rounding a number of units that is not large errs by at most a small power of two.
proof fn lemma_nearest_error(n: nat, h: nat)
    requires
        n <= pow2(24 + h),
        h <= 252,
    ensures
        nearest(single_format(), n, 1) < SINGLE_INFINITY,
        n - pow2(h) <= magnitude(single_format(), nearest(single_format(), n, 1)) <= n + pow2(h),
{
    let f = single_format();
    let infinity = SINGLE_INFINITY as nat;
    lemma2_to64();
    lemma_pow2_pos(h);
    lemma_pow2_adds(24, h);
    let top = lemma_representable(f, pow2(24), h);
    let unit = pow2(f.fraction_bits);
    assert((h + 2) * unit <= 254 * unit) by (nonlinear_arith)
        requires
            h <= 252,
    ;
    lemma_magnitude_order(f, top, infinity);
    lemma_nearest_exact(f, magnitude(f, top), 1, top);
    lemma_nearest_monotone(f, n, magnitude(f, top), 1);
    let below = lemma_bracket(f, n, 1);
    lemma_nearest_in_bracket(f, n, 1, below);
    lemma_magnitude_order(f, below, top);
    lemma_magnitude_order(f, top, below);
    lemma_parts(f, below);
    let e = exponent_of(f, below);
    let q = significand_of(f, below);
    let p = pow2(e);
    assert((q + 1) * p == q * p + p) by (nonlinear_arith);
    if e <= h {
        if e < h {
            lemma_pow2_strictly_increases(e, h);
        }
    } else {
        // The bracket begins at the largest number that is admitted.
        lemma_pow2_adds(23, e);
        lemma_pow2_adds(24, h);
        lemma_pow2_pos(e);
        if 24 + h < 23 + e {
            lemma_pow2_strictly_increases(24 + h, 23 + e);
        }
        assert(pow2(23) * p <= q * p) by (nonlinear_arith)
            requires
                pow2(23) <= q,
        ;
        assert(magnitude(f, below) == n);
        lemma_nearest_exact(f, n, 1, below);
    }
}

/// A sum that is not large errs by at most a small power of two.
pub proof fn lemma_sum_error(a: Single, b: Single, h: nat)
    requires
        is_finite_single(a),
        is_finite_single(b),
        -(pow2(24 + h) as int) <= a.value() + b.value() <= pow2(24 + h),
        h <= 252,
    ensures
        is_finite_single(a.plus(b)),
        a.value() + b.value() - pow2(h) <= a.plus(b).value() <= a.value() + b.value() + pow2(h),
{
    let f = single_format();
    lemma_plus_pattern(a, b);
    lemma_magnitude_small(f);
    lemma_pow2_pos(h);
    let v = a.value() + b.value();
    if v > 0 {
        lemma_nearest_error(v as nat, h);
    } else if v < 0 {
        lemma_nearest_error((-v) as nat, h);
    }
}

/// The difference of finite numbers is a number.
pub proof fn lemma_finite_difference(a: Single, b: Single)
    requires
        is_finite_single(a),
        is_finite_single(b),
    ensures
        !a.plus(b.negated()).nan(),
{
    lemma_finite_single_sum(a, b.negated());
}

/// Numbers with the same value are the same, or the two zeros.
pub proof fn lemma_same_value(a: Single, b: Single)
    requires
        !a.nan(),
        !b.nan(),
        a.value() == b.value(),
    ensures
        a == b || a.pattern().code == 0 && b.pattern().code == 0,
{
    let f = single_format();
    lemma_magnitude_small(f);
    lemma_magnitude_order(f, a.pattern().code, b.pattern().code);
    lemma_magnitude_order(f, a.pattern().code, 0);
    lemma_magnitude_order(f, b.pattern().code, 0);
}

/// Sums with the two zeros: their differences are zeros, and they are not told apart by adding
/// anything but negative zero.
pub proof fn lemma_zero_sums(c: Single)
    requires
        c.bits != 0x8000_0000,
    ensures
        ({
            let zero = Single { bits: 0 };
            let minus = Single { bits: 0x8000_0000 };
            &&& zero.plus(minus.negated()) == zero
            &&& minus.plus(zero.negated()) == minus
            &&& zero.plus(c) == minus.plus(c)
        }),
{
    reveal(Single::plus);
    let f = single_format();
    lemma_magnitude_small(f);
    lemma_magnitude_order(f, c.pattern().code, 0);
}

/// The sum of a finite number and a number between zero and one is finite.
pub proof fn lemma_finite_plus_small(a: Single, c: Single)
    requires
        is_finite_single(a),
        !c.nan(),
        0 <= c.value() <= (Single { bits: SINGLE_ONE }).value(),
    ensures
        is_finite_single(a.plus(c)),
{
    let f = single_format();
    let infinity = SINGLE_INFINITY as nat;
    let top = (infinity - 1) as nat;
    lemma2_to64();
    lemma_pow2_adds(23, 126);
    lemma_magnitude_of_parts(f, 126, pow2(23));
    assert((Single { bits: SINGLE_ONE }).value() == pow2(149));
    lemma_parts(f, top);
    assert(exponent_of(f, top) == 253);
    let q = significand_of(f, top);
    assert((q + 1) * pow2(253) == q * pow2(253) + pow2(253)) by (nonlinear_arith);
    lemma_pow2_unfold(150);
    lemma_pow2_strictly_increases(150, 253);
    lemma_pow2_pos(149);
    let most = magnitude(f, top) + pow2(149);
    lemma_nearest_in_bracket(f, most, 1, top);
    lemma_nearest_exact(f, magnitude(f, top), 1, top);
    lemma_magnitude_order(f, a.pattern().code, top);
    lemma_magnitude_order(f, c.pattern().code, infinity);
    lemma_magnitude_order(f, top, infinity);
    lemma_plus_pattern(a, c);
    let v = a.value() + c.value();
    if v > 0 {
        lemma_nearest_monotone(f, v as nat, most, 1);
    } else if v < 0 {
        lemma_nearest_monotone(f, (-v) as nat, magnitude(f, top), 1);
    }
}

/// A number at or above minus the 103rd power of two.
pub open spec fn is_ordinary(w: Single) -> bool {
    !w.nan() && w.value() >= -(pow2(252) as int)
}

/// The sum of up to `n` ordinary numbers is not below `n` times the least of them can be.
pub proof fn lemma_ordinary_sum(a: Single, w: Single, n: nat)
    requires
        !a.nan(),
        a.value() >= -((n * pow2(252)) as int),
        is_ordinary(w),
        n < 0x100_0000,
    ensures
        !a.plus(w).nan(),
        a.plus(w).value() >= -(((n + 1) * pow2(252)) as int),
        a.plus(w).bits != SINGLE_NEG_INFINITY,
{
    let f = single_format();
    let unit = pow2(252);
    lemma2_to64();
    lemma_single_format();
    vstd::arithmetic::power2::lemma_pow2_pos(252);
    let code = lemma_representable(f, n + 1, 252);
    let least = ((n + 1) * unit) as int;
    assert(n * unit <= (n + 1) * unit) by (nonlinear_arith);
    assert(n * unit + unit == (n + 1) * unit) by (nonlinear_arith);
    assert(unit <= (n + 1) * unit) by (nonlinear_arith);
    lemma_magnitude_order(f, code, SINGLE_INFINITY as nat);
    lemma_nearest_exact(f, magnitude(f, code), 1, code);
    lemma_value_range(f, a.pattern());
    lemma_value_range(f, w.pattern());
    lemma_plus_pattern(a, w);
    let v = a.value() + w.value();
    lemma_rounded_monotone(
        f,
        -least,
        v,
        false,
        a.pattern().negative && w.pattern().negative,
    );
    lemma_value_range(f, a.plus(w).pattern());
    lemma_value_range(f, (Single { bits: SINGLE_NEG_INFINITY }).pattern());
}

/// A number at or between minus and plus the 103rd power of two.
pub open spec fn is_moderate(w: Single) -> bool {
    is_ordinary(w) && w.value() <= pow2(252)
}

/// The sum of up to `n` moderate numbers is not above `n` times the largest of them can be.
pub proof fn lemma_moderate_sum(a: Single, w: Single, n: nat)
    requires
        is_finite_single(a),
        a.value() <= n * pow2(252),
        is_moderate(w),
        n < 0x100_0000,
    ensures
        !a.plus(w).nan(),
        a.plus(w).value() <= (n + 1) * pow2(252),
{
    let f = single_format();
    let unit = pow2(252);
    lemma2_to64();
    lemma_single_format();
    lemma_pow2_pos(252);
    let code = lemma_representable(f, n + 1, 252);
    let most = ((n + 1) * unit) as int;
    assert(n * unit + unit == (n + 1) * unit) by (nonlinear_arith);
    lemma_magnitude_order(f, code, SINGLE_INFINITY as nat);
    lemma_nearest_exact(f, magnitude(f, code), 1, code);
    lemma_value_range(f, w.pattern());
    lemma_moderate_is_finite(w);
    lemma_plus_pattern(a, w);
    let v = a.value() + w.value();
    lemma_rounded_monotone(
        f,
        v,
        most,
        a.pattern().negative && w.pattern().negative,
        false,
    );
}

/// Values between multiples of a large unit are those of finite numbers.
pub proof fn lemma_bounded_is_finite(a: Single, n: nat)
    requires
        !a.nan(),
        -((n * pow2(252)) as int) <= a.value() <= n * pow2(252),
        n <= 0x100_0000,
    ensures
        is_finite_single(a),
{
    let f = single_format();
    lemma2_to64();
    let code = lemma_representable(f, n, 252);
    let unit = pow2(f.fraction_bits);
    assert(unit == 0x80_0000);
    assert((252 + 2) * unit == 0x7f00_0000) by (nonlinear_arith)
        requires
            unit == 0x80_0000,
    ;
    assert(code < SINGLE_INFINITY);
    lemma_magnitude_order(f, code, SINGLE_INFINITY as nat);
    assert(magnitude(f, code) < magnitude(f, SINGLE_INFINITY as nat));
    assert(a.pattern().code != SINGLE_INFINITY);
}

/// Moderate numbers are finite.
pub proof fn lemma_moderate_is_finite(w: Single)
    requires
        is_moderate(w),
    ensures
        is_finite_single(w),
{
    assert(1 * pow2(252) == pow2(252));
    lemma_bounded_is_finite(w, 1);
}

/// A number between zero and one is lost in a sum with a multiple of a large unit: what is not
/// above that multiple stays so.
pub proof fn lemma_small_is_lost(a: Single, c: Single, n: nat)
    requires
        is_finite_single(a),
        a.value() <= n * pow2(252),
        !c.nan(),
        0 <= c.value() <= (Single { bits: SINGLE_ONE }).value(),
        1 <= n <= 0x100_0000,
    ensures
        !a.plus(c).nan(),
        a.plus(c).value() <= n * pow2(252),
{
    let f = single_format();
    let infinity = SINGLE_INFINITY as nat;
    lemma2_to64();
    lemma_pow2_adds(23, 126);
    lemma_magnitude_of_parts(f, 126, pow2(23));
    assert((Single { bits: SINGLE_ONE }).value() == pow2(149));
    let code = lemma_representable(f, n, 252);
    lemma_parts(f, code);
    let q = significand_of(f, code);
    let e = exponent_of(f, code);
    let p = pow2(e);
    assert(e >= 229) by {
        if e < 229 {
            lemma_pow2_adds(24, 228);
            if e < 228 {
                lemma_pow2_strictly_increases(e, 228);
            }
            lemma_pow2_pos(228);
            lemma_pow2_pos(e);
            lemma_pow2_pos(252);
            assert(q * p < pow2(24) * pow2(228)) by (nonlinear_arith)
                requires
                    q < pow2(24),
                    0 < p <= pow2(228),
            ;
            assert(pow2(252) <= n * pow2(252)) by (nonlinear_arith)
                requires
                    n >= 1,
            ;
        }
    }
    assert((q + 1) * p == q * p + p) by (nonlinear_arith);
    lemma_pow2_unfold(150);
    lemma_pow2_strictly_increases(150, 229);
    if e > 229 {
        lemma_pow2_strictly_increases(229, e);
    }
    lemma_pow2_pos(149);
    let most = magnitude(f, code) + pow2(149);
    lemma_magnitude_order(f, code, infinity);
    lemma_nearest_in_bracket(f, most, 1, code);
    lemma_magnitude_order(f, c.pattern().code, infinity);
    lemma_parts(f, (infinity - 1) as nat);
    lemma_finite_plus_small(a, c);
    lemma_plus_pattern(a, c);
    lemma_value_range(f, c.pattern());
    lemma_small_is_finite(c);
    let v = a.value() + c.value();
    lemma_rounded_monotone(
        f,
        v,
        most as int,
        a.pattern().negative && c.pattern().negative,
        false,
    );
}

/// Numbers between zero and one are finite.
proof fn lemma_small_is_finite(c: Single)
    requires
        !c.nan(),
        0 <= c.value() <= (Single { bits: SINGLE_ONE }).value(),
    ensures
        is_finite_single(c),
{
    let f = single_format();
    lemma_value_range(f, c.pattern());
    lemma_magnitude_order(f, SINGLE_ONE as nat, SINGLE_INFINITY as nat);
}

/// To exceed is transitive.
pub proof fn lemma_exceeds_transitive(a: Single, b: Single, c: Single)
    ensures
        a.exceeds(b) && b.exceeds(c) ==> a.exceeds(c),
{
    if a.exceeds(b) && b.exceeds(c) {
        lemma_exceeds_is_above(a, b);
        lemma_exceeds_is_above(b, c);
        lemma_exceeds_order(a, c);
    }
}

/// Of two numbers, one exceeds the other or their values are equal.
pub proof fn lemma_exceeds_order(a: Single, b: Single)
    requires
        !a.nan(),
        !b.nan(),
    ensures
        a.exceeds(b) <==> a.value() > b.value(),
{
    reveal(Single::exceeds);
}

/// No number is below negative infinity.
pub proof fn lemma_neg_infinity_least(a: Single)
    requires
        !a.nan(),
    ensures
        (Single { bits: SINGLE_NEG_INFINITY }).value() <= a.value(),
        a.bits != SINGLE_NEG_INFINITY ==> (Single { bits: SINGLE_NEG_INFINITY }).value() < a.value(),
{
    let f = single_format();
    lemma_value_range(f, a.pattern());
    lemma_value_range(f, (Single { bits: SINGLE_NEG_INFINITY }).pattern());
}

pub(crate) proof fn lemma_single_format()
    ensures
        crate::float_arith::is_format(23, SINGLE_INFINITY as u64),
        SINGLE_INFINITY <= 255 * pow2(23),
        format_of(23, SINGLE_INFINITY as u64) == single_format(),
        single_of(crate::binary_float::quiet_nan(single_format())) == (Single { bits: SINGLE_NAN }),
{
    lemma2_to64();
}

} // verus!

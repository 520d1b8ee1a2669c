//! Double-precision scores.

use crate::binary_float::{
    greater, lemma_magnitude_order, lemma_magnitude_small, lemma_nearest_exact, lemma_rounded_monotone,
    lemma_sum_commutes, lemma_sum_monotone, magnitude, nearest, signed_value, sum, Format, Pattern,
};
use crate::float_arith::{add_finite, round_exact, take_apart};
use crate::rounding::format_of;
use crate::single::{
    lemma_single_format, single_format, single_of, Single, SINGLE_INFINITY, SINGLE_NAN,
};
use vstd::arithmetic::power2::{
    lemma2_to64, lemma2_to64_rest, lemma_pow2_adds, lemma_pow2_pos, pow2,
};
use vstd::prelude::*;

verus! {

/// The code of infinity, and the bit pattern of positive infinity.
pub const DOUBLE_INFINITY: u64 = 0x7ff0_0000_0000_0000;

/// The bit pattern of the NaN that operations give.
pub const DOUBLE_NAN: u64 = 0x7ff8_0000_0000_0000;

/// A double-precision floating-point number, held as its bit pattern. Equality of two values
/// of this type is equality of their patterns.
#[derive(Clone, Copy, Debug, PartialEq, Eq, Structural)]
pub struct Double {
    pub bits: u64,
}

pub open spec fn double_format() -> Format {
    Format { fraction_bits: 52, infinity: DOUBLE_INFINITY as nat }
}

/// The double-precision number with a given sign and code.
pub open spec fn double_of(p: Pattern) -> Double {
    Double {
        bits: if p.negative {
            (0x8000_0000_0000_0000 + p.code) as u64
        } else {
            p.code as u64
        },
    }
}

impl Double {
    pub open spec fn pattern(self) -> Pattern {
        Pattern {
            negative: self.bits >= 0x8000_0000_0000_0000,
            code: (self.bits % 0x8000_0000_0000_0000) as nat,
        }
    }

    pub open spec fn nan(self) -> bool {
        self.pattern().code > DOUBLE_INFINITY
    }

    /// The value, in units of the least positive one; of a number that is no NaN.
    pub open spec fn value(self) -> int {
        signed_value(double_format(), self.pattern())
    }

    /// The correctly rounded sum.
    #[verifier::opaque]
    pub open spec fn plus(self, other: Double) -> Double {
        double_of(sum(double_format(), self.pattern(), other.pattern()))
    }

    /// The comparison `self > other`.
    #[verifier::opaque]
    pub open spec fn exceeds(self, other: Double) -> bool {
        greater(double_format(), self.pattern(), other.pattern())
    }

    /// The comparison `self == other` of numbers: a NaN equals nothing, the two zeros are equal.
    pub open spec fn same_number(self, other: Double) -> bool {
        !self.nan() && !other.nan() && self.value() == other.value()
    }

    /// The nearest single-precision number.
    #[verifier::opaque]
    pub open spec fn narrowed(self) -> Single {
        let a = self.pattern();
        if self.nan() {
            Single { bits: SINGLE_NAN }
        } else if a.code == DOUBLE_INFINITY {
            single_of(Pattern { negative: a.negative, code: SINGLE_INFINITY as nat })
        } else {
            single_of(
                Pattern {
                    negative: a.negative,
                    code: nearest(
                        single_format(),
                        magnitude(double_format(), a.code),
                        pow2(925),
                    ),
                },
            )
        }
    }

    /// Positive zero.
    pub fn zero() -> (zero: Double)
        ensures
            zero.bits == 0,
    {
        Double { bits: 0 }
    }

    /// Positive infinity.
    pub fn infinity() -> (result: Double)
        ensures
            result.bits == DOUBLE_INFINITY,
    {
        Double { bits: DOUBLE_INFINITY }
    }

    fn negative(&self) -> (result: bool)
        ensures
            result == self.pattern().negative,
    {
        self.bits >= 0x8000_0000_0000_0000
    }

    fn code(&self) -> (code: u64)
        ensures
            code == self.pattern().code,
            code < 0x8000_0000_0000_0000,
    {
        self.bits % 0x8000_0000_0000_0000
    }

    fn from_parts(negative: bool, code: u64) -> (result: Double)
        requires
            code < 0x8000_0000_0000_0000,
        ensures
            result == double_of(Pattern { negative, code: code as nat }),
    {
        if negative {
            Double { bits: 0x8000_0000_0000_0000 + code }
        } else {
            Double { bits: code }
        }
    }

    /// `self + other`.
    pub fn add(&self, other: &Double) -> (result: Double)
        ensures
            result == self.plus(*other),
    {
        proof {
            reveal(Double::plus);
            lemma_double_format();
        }
        let infinity: u64 = DOUBLE_INFINITY;
        let a: u64 = self.code();
        let b: u64 = other.code();
        if a > infinity || b > infinity {
            return Double { bits: DOUBLE_NAN };
        }
        if a == infinity {
            if b == infinity && self.negative() != other.negative() {
                return Double { bits: DOUBLE_NAN };
            }
            return Double { bits: self.bits };
        }
        if b == infinity {
            return Double { bits: other.bits };
        }
        let (negative, code) = add_finite(
            52,
            infinity,
            self.negative(),
            a,
            other.negative(),
            b,
        );
        Double::from_parts(negative, code)
    }

    /// `self > other`.
    pub fn gt(&self, other: &Double) -> (result: bool)
        ensures
            result == self.exceeds(*other),
    {
        let infinity: u64 = DOUBLE_INFINITY;
        let a: u64 = self.code();
        let b: u64 = other.code();
        proof {
            reveal(Double::exceeds);
            lemma_code_order(a as nat, b as nat);
        }
        if a > infinity || b > infinity {
            return false;
        }
        match (self.negative(), other.negative()) {
            (false, false) => a > b,
            (true, true) => a < b,
            (false, true) => a > 0 || b > 0,
            (true, false) => false,
        }
    }

    /// Whether the two are equal as numbers.
    pub fn equals(&self, other: &Double) -> (result: bool)
        ensures
            result == self.same_number(*other),
    {
        let infinity: u64 = DOUBLE_INFINITY;
        let a: u64 = self.code();
        let b: u64 = other.code();
        proof {
            lemma_code_order(a as nat, b as nat);
        }
        if a > infinity || b > infinity {
            return false;
        }
        if self.negative() == other.negative() {
            a == b
        } else {
            a == 0 && b == 0
        }
    }

    /// The nearest single-precision number.
    pub fn to_single(&self) -> (result: Single)
        ensures
            result == self.narrowed(),
    {
        proof {
            reveal(Double::narrowed);
            lemma_double_format();
            lemma_single_format();
            lemma_pow2_pos(925);
        }
        let a: u64 = self.code();
        if a > DOUBLE_INFINITY {
            return Single { bits: SINGLE_NAN };
        }
        let code: u64 = if a == DOUBLE_INFINITY {
            SINGLE_INFINITY as u64
        } else {
            let (q, e) = take_apart(52, DOUBLE_INFINITY, a);
            round_exact(
                23,
                SINGLE_INFINITY as u64,
                q,
                e as i32 - 925,
                Ghost(magnitude(double_format(), a as nat)),
                Ghost(pow2(925)),
                Ghost(925),
            )
        };
        if self.negative() {
            Single { bits: 0x8000_0000 + code as u32 }
        } else {
            Single { bits: code as u32 }
        }
    }
}

/// The double-precision number with the value of a single-precision one.
#[verifier::opaque]
pub open spec fn widened(x: Single) -> Double {
    let a = x.pattern();
    if x.nan() {
        Double { bits: DOUBLE_NAN }
    } else if a.code == SINGLE_INFINITY {
        double_of(Pattern { negative: a.negative, code: DOUBLE_INFINITY as nat })
    } else {
        double_of(
            Pattern {
                negative: a.negative,
                code: nearest(
                    double_format(),
                    magnitude(single_format(), a.code) * pow2(925),
                    1,
                ),
            },
        )
    }
}

impl Single {
    /// The double-precision number with this value.
    pub fn to_double(&self) -> (result: Double)
        ensures
            result == widened(*self),
    {
        proof {
            reveal(widened);
            lemma_double_format();
            lemma_single_format();
        }
        let a: u64 = (self.bits % 0x8000_0000) as u64;
        if a > SINGLE_INFINITY as u64 {
            return Double { bits: DOUBLE_NAN };
        }
        let code: u64 = if a == SINGLE_INFINITY as u64 {
            DOUBLE_INFINITY
        } else {
            let (q, e) = take_apart(23, SINGLE_INFINITY as u64, a);
            let ghost m = magnitude(single_format(), a as nat);
            proof {
                lemma_pow2_adds(e as nat, 925);
                lemma2_to64();
                let pe = pow2(e as nat);
                assert(q * pow2((e + 925) as nat) == m * pow2(925)) by (nonlinear_arith)
                    requires
                        m == q * pe,
                        pow2((e + 925) as nat) == pe * pow2(925),
                ;
            }
            round_exact(
                52,
                DOUBLE_INFINITY,
                q,
                e as i32 + 925,
                Ghost(m * pow2(925)),
                Ghost(1),
                Ghost(0),
            )
        };
        if self.bits >= 0x8000_0000 {
            Double { bits: 0x8000_0000_0000_0000 + code }
        } else {
            Double { bits: code }
        }
    }
}

proof fn lemma_code_order(a: nat, b: nat)
    ensures
        ({
            let f = double_format();
            &&& a < b <==> magnitude(f, a) < magnitude(f, b)
            &&& a == b <==> magnitude(f, a) == magnitude(f, b)
            &&& magnitude(f, a) == 0 <==> a == 0
            &&& magnitude(f, b) == 0 <==> b == 0
        }),
{
    let f = double_format();
    lemma_magnitude_order(f, a, b);
    lemma_magnitude_order(f, 0, a);
    lemma_magnitude_order(f, 0, b);
    lemma_magnitude_small(f);
}

/// Sign and code of a sum.
pub proof fn lemma_double_plus_pattern(a: Double, b: Double)
    ensures
        a.plus(b).pattern() == sum(double_format(), a.pattern(), b.pattern()),
{
    reveal(Double::plus);
    lemma2_to64_rest();
    let f = double_format();
    let v = signed_value(f, a.pattern()) + signed_value(f, b.pattern());
    lemma_rounded_monotone(f, v, v, a.pattern().negative && b.pattern().negative, false);
}

/// Adding to the same weight keeps order, where neither sum is NaN.
pub proof fn lemma_double_plus_monotone(w: Double, a: Double, b: Double)
    requires
        !a.nan(),
        !b.nan(),
        a.value() <= b.value(),
        !w.plus(a).nan(),
        !w.plus(b).nan(),
    ensures
        w.plus(a).value() <= w.plus(b).value(),
{
    let f = double_format();
    lemma_double_plus_pattern(w, a);
    lemma_double_plus_pattern(w, b);
    lemma_sum_commutes(f, w.pattern(), a.pattern());
    lemma_sum_commutes(f, w.pattern(), b.pattern());
    lemma_sum_monotone(f, a.pattern(), b.pattern(), w.pattern());
}

/// A number that is not infinite.
pub open spec fn is_finite(a: Double) -> bool {
    a.pattern().code < DOUBLE_INFINITY
}

/// Adding a finite number to a number gives a number.
pub proof fn lemma_finite_sum(a: Double, w: Double)
    requires
        !a.nan(),
        is_finite(w),
    ensures
        !a.plus(w).nan(),
        !w.plus(a).nan(),
{
    let f = double_format();
    lemma_double_plus_pattern(a, w);
    lemma_double_plus_commutes(a, w);
    let v = a.value() + w.value();
    lemma_rounded_monotone(f, v, v, a.pattern().negative && w.pattern().negative, false);
}

/// Adding positive zero keeps the value of a number.
pub proof fn lemma_double_plus_zero(a: Double)
    requires
        !a.nan(),
    ensures
        !a.plus(Double { bits: 0 }).nan(),
        a.plus(Double { bits: 0 }).value() == a.value(),
{
    let f = double_format();
    lemma_double_plus_pattern(a, Double { bits: 0 });
    lemma_magnitude_small(f);
    lemma_magnitude_order(f, 0, a.pattern().code);
    lemma_nearest_exact(f, magnitude(f, a.pattern().code), 1, a.pattern().code);
}

/// Only numbers exceed or are exceeded.
pub proof fn lemma_double_exceeds_is_above(a: Double, b: Double)
    ensures
        a.exceeds(b) ==> !a.nan() && !b.nan() && a.value() > b.value(),
{
    reveal(Double::exceeds);
}

/// Addition is commutative.
pub proof fn lemma_double_plus_commutes(a: Double, b: Double)
    ensures
        a.plus(b) == b.plus(a),
{
    reveal(Double::plus);
    lemma_sum_commutes(double_format(), a.pattern(), b.pattern());
}

/// Of two numbers, one exceeds the other or their values are equal.
pub proof fn lemma_double_exceeds_order(a: Double, b: Double)
    requires
        !a.nan(),
        !b.nan(),
    ensures
        a.exceeds(b) <==> a.value() > b.value(),
{
    reveal(Double::exceeds);
}

pub(crate) proof fn lemma_double_format()
    ensures
        crate::float_arith::is_format(52, DOUBLE_INFINITY),
        format_of(52, DOUBLE_INFINITY) == double_format(),
        double_of(crate::binary_float::quiet_nan(double_format())) == (Double { bits: DOUBLE_NAN }),
{
    lemma2_to64();
    lemma2_to64_rest();
}

} // verus!

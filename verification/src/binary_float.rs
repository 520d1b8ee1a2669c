//! The meaning of binary floating-point bit patterns.
//!
//! A pattern is split into its sign and the remaining bits, the *code*. Codes are ordered as the
//! absolute values they stand for, so that rounding to nearest is a choice between two
//! neighbouring codes.

use vstd::arithmetic::mul::{lemma_mul_inequality, lemma_mul_strict_inequality};
use vstd::arithmetic::power2::{lemma_pow2_pos, lemma_pow2_unfold, pow2};
use vstd::prelude::*;

verus! {

/// An interchange format: how many bits its fraction has, and the code of infinity.
pub struct Format {
    pub fraction_bits: nat,
    pub infinity: nat,
}

/// A bit pattern, split into sign and code.
pub struct Pattern {
    pub negative: bool,
    pub code: nat,
}

/// The absolute value of a code, in units of the least positive value of the format. Infinity
/// counts as the value that would follow the largest finite one.
pub open spec fn magnitude(f: Format, code: nat) -> nat {
    let fraction = code % pow2(f.fraction_bits);
    let exponent = code / pow2(f.fraction_bits);
    if exponent == 0 {
        fraction
    } else {
        (pow2(f.fraction_bits) + fraction) * pow2((exponent - 1) as nat)
    }
}

/// `num / den` lies at or above the value of `code` and below that of the next code.
pub open spec fn brackets(f: Format, num: nat, den: nat, code: nat) -> bool {
    magnitude(f, code) * den <= num < magnitude(f, code + 1) * den
}

/// The code nearest to the non-negative fraction `num / den` (in units of the least positive
/// value); of two codes equally near, the even one. Too large a fraction gives infinity.
pub open spec fn nearest(f: Format, num: nat, den: nat) -> nat {
    if magnitude(f, f.infinity) * den <= num {
        f.infinity
    } else {
        let below = choose|code: nat| brackets(f, num, den, code);
        let double_middle = (magnitude(f, below) + magnitude(f, below + 1)) * den;
        if 2 * num < double_middle {
            below
        } else if 2 * num > double_middle {
            below + 1
        } else if below % 2 == 0 {
            below
        } else {
            below + 1
        }
    }
}

pub open spec fn is_nan(f: Format, a: Pattern) -> bool {
    a.code > f.infinity
}

pub open spec fn is_infinite(f: Format, a: Pattern) -> bool {
    a.code == f.infinity
}

/// The value of a pattern that is no NaN, in units of the least positive value.
pub open spec fn signed_value(f: Format, a: Pattern) -> int {
    if a.negative {
        -(magnitude(f, a.code) as int)
    } else {
        magnitude(f, a.code) as int
    }
}

/// The comparison `a > b`: false where either is NaN; the two zeros are equal.
pub open spec fn greater(f: Format, a: Pattern, b: Pattern) -> bool {
    !is_nan(f, a) && !is_nan(f, b) && signed_value(f, a) > signed_value(f, b)
}

/// The NaN that results from an operation: positive, with the first fraction bit set.
pub open spec fn quiet_nan(f: Format) -> Pattern {
    Pattern { negative: false, code: f.infinity + pow2((f.fraction_bits - 1) as nat) }
}

/// The sum, correctly rounded to nearest, ties to even.
pub open spec fn sum(f: Format, a: Pattern, b: Pattern) -> Pattern {
    if is_nan(f, a) || is_nan(f, b) {
        quiet_nan(f)
    } else if is_infinite(f, a) {
        if is_infinite(f, b) && a.negative != b.negative {
            quiet_nan(f)
        } else {
            a
        }
    } else if is_infinite(f, b) {
        b
    } else {
        rounded(f, signed_value(f, a) + signed_value(f, b), a.negative && b.negative)
    }
}

/// The pattern nearest to the integer `v` (in units of the least positive value); `zero_sign`
/// is the sign of a zero.
pub open spec fn rounded(f: Format, v: int, zero_sign: bool) -> Pattern {
    if v > 0 {
        Pattern { negative: false, code: nearest(f, v as nat, 1) }
    } else if v < 0 {
        Pattern { negative: true, code: nearest(f, (-v) as nat, 1) }
    } else {
        Pattern { negative: zero_sign, code: 0 }
    }
}

/// The quotient, correctly rounded to nearest, ties to even. `one` is the value of 1 in units
/// of the least positive value.
pub open spec fn quotient(f: Format, one: nat, a: Pattern, b: Pattern) -> Pattern {
    let negative = a.negative != b.negative;
    if is_nan(f, a) || is_nan(f, b) {
        quiet_nan(f)
    } else if is_infinite(f, a) {
        if is_infinite(f, b) {
            quiet_nan(f)
        } else {
            Pattern { negative, code: f.infinity }
        }
    } else if is_infinite(f, b) {
        Pattern { negative, code: 0 }
    } else if b.code == 0 {
        if a.code == 0 {
            quiet_nan(f)
        } else {
            Pattern { negative, code: f.infinity }
        }
    } else {
        Pattern {
            negative,
            code: nearest(f, magnitude(f, a.code) * one, magnitude(f, b.code)),
        }
    }
}

/// The value of a code assembled from an exponent and a significand.
pub proof fn lemma_magnitude_of_parts(f: Format, e: nat, q: nat)
    requires
        q <= 2 * pow2(f.fraction_bits),
        e == 0 || q >= pow2(f.fraction_bits),
    ensures
        magnitude(f, e * pow2(f.fraction_bits) + q) == q * pow2(e),
{
    let unit = pow2(f.fraction_bits);
    lemma_pow2_pos(f.fraction_bits);
    vstd::arithmetic::power2::lemma2_to64();
    let code = e * unit + q;
    if q < unit {
        assert(e * unit == 0) by (nonlinear_arith)
            requires
                e == 0,
        ;
        assert(code == q);
        vstd::arithmetic::div_mod::lemma_basic_div(q as int, unit as int);
        vstd::arithmetic::div_mod::lemma_small_mod(q, unit);
        assert(q * pow2(e) == q) by (nonlinear_arith)
            requires
                pow2(e) == 1,
        ;
    } else if q < 2 * unit {
        assert(code == (e + 1) * unit + (q - unit)) by (nonlinear_arith)
            requires
                code == e * unit + q,
        ;
        vstd::arithmetic::div_mod::lemma_fundamental_div_mod_converse(
            code as int,
            unit as int,
            (e + 1) as int,
            (q - unit) as int,
        );
    } else {
        assert(code == (e + 2) * unit) by (nonlinear_arith)
            requires
                code == e * unit + q,
                q == 2 * unit,
        ;
        vstd::arithmetic::div_mod::lemma_fundamental_div_mod_converse(
            code as int,
            unit as int,
            (e + 2) as int,
            0,
        );
        lemma_pow2_unfold(e + 1);
        assert((unit + 0) * pow2(e + 1) == q * pow2(e)) by (nonlinear_arith)
            requires
                pow2(e + 1) == 2 * pow2(e),
                q == 2 * unit,
        ;
    }
}

/// A code taken apart into an exponent and a significand.
pub open spec fn exponent_of(f: Format, code: nat) -> nat {
    let field = code / pow2(f.fraction_bits);
    if field == 0 {
        0
    } else {
        (field - 1) as nat
    }
}

pub open spec fn significand_of(f: Format, code: nat) -> nat {
    let field = code / pow2(f.fraction_bits);
    let fraction = code % pow2(f.fraction_bits);
    if field == 0 {
        fraction
    } else {
        pow2(f.fraction_bits) + fraction
    }
}

pub proof fn lemma_parts(f: Format, code: nat)
    ensures
        code == exponent_of(f, code) * pow2(f.fraction_bits) + significand_of(f, code),
        significand_of(f, code) < 2 * pow2(f.fraction_bits),
        exponent_of(f, code) == 0 || significand_of(f, code) >= pow2(f.fraction_bits),
        magnitude(f, code) == significand_of(f, code) * pow2(exponent_of(f, code)),
        magnitude(f, code + 1) == (significand_of(f, code) + 1) * pow2(exponent_of(f, code)),
{
    let unit = pow2(f.fraction_bits);
    lemma_pow2_pos(f.fraction_bits);
    vstd::arithmetic::div_mod::lemma_fundamental_div_mod(code as int, unit as int);
    vstd::arithmetic::div_mod::lemma_mod_bound(code as int, unit as int);
    let field = code / unit;
    let fraction = code % unit;
    let e = exponent_of(f, code);
    let q = significand_of(f, code);
    assert(code == e * unit + q) by (nonlinear_arith)
        requires
            code == unit * field + fraction,
            field == 0 && e == 0 && q == fraction || field == e + 1 && q == unit + fraction,
    ;
    lemma_magnitude_of_parts(f, e, q);
    lemma_magnitude_of_parts(f, e, q + 1);
}

/// The next code has a larger value.
pub proof fn lemma_magnitude_step(f: Format, code: nat)
    ensures
        magnitude(f, code) < magnitude(f, code + 1),
{
    lemma_parts(f, code);
    let e = exponent_of(f, code);
    let q = significand_of(f, code);
    lemma_pow2_pos(e);
    assert(q * pow2(e) < (q + 1) * pow2(e)) by (nonlinear_arith)
        requires
            pow2(e) > 0,
    ;
}

/// A larger code has a larger value.
pub proof fn lemma_magnitude_increases(f: Format, low: nat, high: nat)
    requires
        low < high,
    ensures
        magnitude(f, low) < magnitude(f, high),
    decreases high - low,
{
    lemma_magnitude_step(f, low);
    if low + 1 < high {
        lemma_magnitude_increases(f, low + 1, high);
    }
}

/// The codes are in the order of their values.
pub proof fn lemma_magnitude_order(f: Format, a: nat, b: nat)
    ensures
        a < b <==> magnitude(f, a) < magnitude(f, b),
        a == b <==> magnitude(f, a) == magnitude(f, b),
{
    if a < b {
        lemma_magnitude_increases(f, a, b);
    } else if b < a {
        lemma_magnitude_increases(f, b, a);
    }
}

/// Code 0 has value 0, and code 1 is the unit.
pub proof fn lemma_magnitude_small(f: Format)
    ensures
        magnitude(f, 0) == 0,
        magnitude(f, 1) == 1,
{
    vstd::arithmetic::power2::lemma2_to64();
    lemma_pow2_pos(f.fraction_bits);
    lemma_magnitude_of_parts(f, 0, 0);
    lemma_magnitude_of_parts(f, 0, 1);
}

/// No fraction lies in two brackets.
pub proof fn lemma_brackets_unique(f: Format, num: nat, den: nat, a: nat, b: nat)
    requires
        brackets(f, num, den, a),
        brackets(f, num, den, b),
    ensures
        a == b,
{
    if a < b {
        lemma_no_higher_bracket(f, num, den, a, b);
    } else if b < a {
        lemma_no_higher_bracket(f, num, den, b, a);
    }
}

proof fn lemma_no_higher_bracket(f: Format, num: nat, den: nat, low: nat, high: nat)
    requires
        low < high,
        brackets(f, num, den, low),
    ensures
        !brackets(f, num, den, high),
{
    lemma_magnitude_order(f, low + 1, high);
    lemma_mul_inequality(
        magnitude(f, low + 1) as int,
        magnitude(f, high) as int,
        den as int,
    );
}

/// What `nearest` is, for a known bracket.
pub proof fn lemma_nearest_in_bracket(f: Format, num: nat, den: nat, below: nat)
    requires
        brackets(f, num, den, below),
    ensures
        below < f.infinity ==> nearest(f, num, den) == ({
            let double_middle = (magnitude(f, below) + magnitude(f, below + 1)) * den;
            if 2 * num < double_middle {
                below
            } else if 2 * num > double_middle {
                below + 1
            } else if below % 2 == 0 {
                below
            } else {
                below + 1
            }
        }),
        below >= f.infinity ==> nearest(f, num, den) == f.infinity,
{
    if below >= f.infinity {
        lemma_magnitude_order(f, below, f.infinity);
        lemma_mul_inequality(
            magnitude(f, f.infinity) as int,
            magnitude(f, below) as int,
            den as int,
        );
    } else {
        lemma_magnitude_order(f, below + 1, f.infinity);
        lemma_mul_inequality(
            magnitude(f, below + 1) as int,
            magnitude(f, f.infinity) as int,
            den as int,
        );
        let chosen = choose|code: nat| brackets(f, num, den, code);
        lemma_brackets_unique(f, num, den, below, chosen);
    }
}

/// A representable value is its own nearest.
pub proof fn lemma_nearest_exact(f: Format, num: nat, den: nat, code: nat)
    requires
        den > 0,
        num == magnitude(f, code) * den,
    ensures
        code < f.infinity ==> nearest(f, num, den) == code,
        code >= f.infinity ==> nearest(f, num, den) == f.infinity,
{
    lemma_magnitude_step(f, code);
    lemma_mul_strict_inequality(
        magnitude(f, code) as int,
        magnitude(f, code + 1) as int,
        den as int,
    );
    assert(2 * num < (magnitude(f, code) + magnitude(f, code + 1)) * den) by (nonlinear_arith)
        requires
            num == magnitude(f, code) * den,
            magnitude(f, code) < magnitude(f, code + 1),
            den > 0,
    ;
    lemma_nearest_in_bracket(f, num, den, code);
}

/// A code is at most its value.
proof fn lemma_magnitude_grows(f: Format, code: nat)
    ensures
        code <= magnitude(f, code),
    decreases code,
{
    if code > 0 {
        lemma_magnitude_grows(f, (code - 1) as nat);
        lemma_magnitude_step(f, (code - 1) as nat);
    }
}

/// Below a code whose value is larger than the fraction, there is its bracket.
proof fn lemma_bracket_below(f: Format, num: nat, den: nat, high: nat) -> (code: nat)
    requires
        num < magnitude(f, high) * den,
    ensures
        brackets(f, num, den, code),
        code < high,
    decreases high,
{
    if high == 0 {
        lemma_magnitude_small(f);
        assert(magnitude(f, 0) * den == 0) by (nonlinear_arith)
            requires
                magnitude(f, 0) == 0,
        ;
        0
    } else if num < magnitude(f, (high - 1) as nat) * den {
        lemma_bracket_below(f, num, den, (high - 1) as nat)
    } else {
        (high - 1) as nat
    }
}

/// Every fraction has a bracket.
pub proof fn lemma_bracket(f: Format, num: nat, den: nat) -> (code: nat)
    requires
        den > 0,
    ensures
        brackets(f, num, den, code),
{
    lemma_magnitude_grows(f, num + 1);
    assert(num < magnitude(f, num + 1) * den) by (nonlinear_arith)
        requires
            magnitude(f, num + 1) >= num + 1,
            den > 0,
    ;
    lemma_bracket_below(f, num, den, num + 1)
}

/// Rounding keeps order, and never goes beyond infinity.
pub proof fn lemma_nearest_monotone(f: Format, low: nat, high: nat, den: nat)
    requires
        den > 0,
        low <= high,
    ensures
        nearest(f, low, den) <= nearest(f, high, den) <= f.infinity,
{
    let a = lemma_bracket(f, low, den);
    let b = lemma_bracket(f, high, den);
    lemma_nearest_in_bracket(f, low, den, a);
    lemma_nearest_in_bracket(f, high, den, b);
    if b < a {
        lemma_magnitude_order(f, b + 1, a);
        lemma_mul_inequality(magnitude(f, b + 1) as int, magnitude(f, a) as int, den as int);
    }
}

/// Rounding of signed values keeps order.
pub proof fn lemma_rounded_monotone(f: Format, low: int, high: int, low_sign: bool, high_sign: bool)
    requires
        low <= high,
    ensures
        signed_value(f, rounded(f, low, low_sign)) <= signed_value(f, rounded(f, high, high_sign)),
        rounded(f, low, low_sign).code <= f.infinity,
        rounded(f, high, high_sign).code <= f.infinity,
{
    lemma_magnitude_small(f);
    lemma_nearest_monotone(f, 0, 0, 1);
    if low > 0 {
        lemma_nearest_monotone(f, low as nat, high as nat, 1);
        lemma_magnitude_order(f, nearest(f, high as nat, 1), nearest(f, low as nat, 1));
    } else if high < 0 {
        lemma_nearest_monotone(f, (-high) as nat, (-low) as nat, 1);
        lemma_magnitude_order(f, nearest(f, (-low) as nat, 1), nearest(f, (-high) as nat, 1));
    } else {
        if high > 0 {
            lemma_nearest_monotone(f, high as nat, high as nat, 1);
        }
        if low < 0 {
            lemma_nearest_monotone(f, (-low) as nat, (-low) as nat, 1);
        }
    }
}

/// Addition keeps order, where neither sum is NaN.
pub proof fn lemma_sum_monotone(f: Format, low: Pattern, high: Pattern, w: Pattern)
    requires
        !is_nan(f, low),
        !is_nan(f, high),
        signed_value(f, low) <= signed_value(f, high),
        !is_nan(f, sum(f, low, w)),
        !is_nan(f, sum(f, high, w)),
        f.infinity > 0,
        f.fraction_bits > 0,
    ensures
        signed_value(f, sum(f, low, w)) <= signed_value(f, sum(f, high, w)),
{
    lemma_pow2_pos((f.fraction_bits - 1) as nat);
    let a = signed_value(f, low) + signed_value(f, w);
    let b = signed_value(f, high) + signed_value(f, w);
    lemma_value_range(f, low);
    lemma_value_range(f, high);
    lemma_value_range(f, w);
    lemma_rounded_monotone(f, a, b, low.negative && w.negative, high.negative && w.negative);
    lemma_value_range(f, sum(f, low, w));
    lemma_value_range(f, sum(f, high, w));
}

/// The values of numbers lie between the infinities, and only those have their values.
pub proof fn lemma_value_range(f: Format, a: Pattern)
    requires
        f.infinity > 0,
    ensures
        !is_nan(f, a) ==> -magnitude(f, f.infinity) <= signed_value(f, a) <= magnitude(
            f,
            f.infinity,
        ),
        signed_value(f, a) == magnitude(f, f.infinity) <==> is_infinite(f, a) && !a.negative,
        signed_value(f, a) == -magnitude(f, f.infinity) <==> is_infinite(f, a) && a.negative,
{
    lemma_magnitude_order(f, a.code, f.infinity);
    lemma_magnitude_order(f, f.infinity, a.code);
    lemma_magnitude_order(f, 0, f.infinity);
    lemma_magnitude_small(f);
}

/// No positive whole number of units rounds to zero.
pub proof fn lemma_nearest_positive(f: Format, n: nat)
    requires
        n > 0,
        f.infinity > 1,
    ensures
        nearest(f, n, 1) > 0,
{
    lemma_magnitude_small(f);
    lemma_nearest_exact(f, 1, 1, 1);
    lemma_nearest_monotone(f, 1, n, 1);
}

/// A multiple of a power of two by a factor that fits in the significand is representable.
pub proof fn lemma_representable(f: Format, m: nat, e: nat) -> (code: nat)
    requires
        m <= 2 * pow2(f.fraction_bits),
    ensures
        magnitude(f, code) == m * pow2(e),
        code <= (e + 2) * pow2(f.fraction_bits),
    decreases e,
{
    let unit = pow2(f.fraction_bits);
    if e == 0 || m >= unit {
        lemma_magnitude_of_parts(f, e, m);
        assert(e * unit + m <= (e + 2) * unit) by (nonlinear_arith)
            requires
                m <= 2 * unit,
        ;
        e * unit + m
    } else {
        let code = lemma_representable(f, 2 * m, (e - 1) as nat);
        lemma_pow2_unfold(e);
        assert((2 * m) * pow2((e - 1) as nat) == m * pow2(e)) by (nonlinear_arith)
            requires
                pow2(e) == 2 * pow2((e - 1) as nat),
        ;
        assert((e + 1) * unit <= (e + 2) * unit) by (nonlinear_arith);
        code
    }
}

/// Addition is commutative.
pub proof fn lemma_sum_commutes(f: Format, a: Pattern, b: Pattern)
    ensures
        sum(f, a, b) == sum(f, b, a),
{
}

} // verus!

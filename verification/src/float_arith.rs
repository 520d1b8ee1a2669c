//! Addition, division and conversion of finite values, on sign and code.

use crate::binary_float::{
    exponent_of, lemma_magnitude_order, lemma_magnitude_small, lemma_nearest_exact,
    lemma_nearest_in_bracket, lemma_parts, magnitude, nearest, rounded, significand_of,
    signed_value, Format, Pattern,
};
use crate::rounding::{format_of, power_of_two, round_to_code};
use vstd::arithmetic::power2::{
    lemma_pow2_adds, lemma_pow2_pos, lemma_pow2_strictly_increases, lemma_pow2_unfold, pow2,
};
use vstd::prelude::*;

verus! {

/// The parameters describe a format of at most 64 bits.
pub open spec fn is_format(fraction_bits: u32, infinity: u64) -> bool {
    &&& 1 <= fraction_bits <= 52
    &&& 0 < infinity <= 2047 * pow2(fraction_bits as nat)
}

/// Significand and exponent of a finite code.
pub(crate) fn take_apart(fraction_bits: u32, infinity: u64, code: u64) -> (parts: (u64, u32))
    requires
        is_format(fraction_bits, infinity),
        code < infinity,
    ensures
        ({
            let f = format_of(fraction_bits, infinity);
            let (q, e) = parts;
            &&& q == significand_of(f, code as nat)
            &&& e == exponent_of(f, code as nat)
            &&& q < 2 * pow2(f.fraction_bits)
            &&& e == 0 || q >= pow2(f.fraction_bits)
            &&& magnitude(f, code as nat) == q * pow2(e as nat)
            &&& magnitude(f, code as nat + 1) == (q + 1) * pow2(e as nat)
            &&& code == e * pow2(f.fraction_bits) + q
            &&& q < 0x20_0000_0000_0000
            &&& e <= 2046
        }),
{
    let ghost f = format_of(fraction_bits, infinity);
    let unit: u64 = power_of_two(fraction_bits) as u64;
    proof {
        crate::rounding::lemma_unit_bound(fraction_bits);
        lemma_parts(f, code as nat);
        assert(code / unit <= 2047) by (nonlinear_arith)
            requires
                code < 2047 * unit,
                unit > 0,
        ;
    }
    let field: u64 = code / unit;
    let fraction: u64 = code % unit;
    if field == 0 {
        (fraction, 0)
    } else {
        (unit + fraction, (field - 1) as u32)
    }
}

/// Adding much less than the distance to the neighbouring codes changes nothing.
proof fn lemma_absorbed(f: Format, code: nat, q: nat, e: nat, small: nat)
    requires
        code < f.infinity,
        e > 0,
        q == significand_of(f, code),
        e == exponent_of(f, code),
        4 * small < pow2(e),
        small <= magnitude(f, code),
    ensures
        nearest(f, magnitude(f, code) + small, 1) == code,
        nearest(f, (magnitude(f, code) - small) as nat, 1) == code,
{
    lemma_parts(f, code);
    lemma_pow2_pos(e);
    let p = pow2(e);
    let value = magnitude(f, code);
    assert((q + 1) * p == q * p + p) by (nonlinear_arith);
    assert(magnitude(f, code) * 1 == magnitude(f, code));
    lemma_nearest_in_bracket(f, value + small, 1, code);
    if small > 0 {
        assert(code > 0) by {
            if code == 0 {
                lemma_magnitude_small(f);
            }
        }
        let below = (code - 1) as nat;
        lemma_parts(f, below);
        let e1 = exponent_of(f, below);
        let q1 = significand_of(f, below);
        let p1 = pow2(e1);
        assert((q1 + 1) * p1 == q1 * p1 + p1) by (nonlinear_arith);
        assert(value == magnitude(f, below + 1));
        // The neighbour below is at least half as far away as the one above.
        lemma_pow2_unfold(e);
        lemma_exponent_step(f, code);
        assert(2 * p1 >= p);
        assert(value - magnitude(f, below) == p1);
        assert(2 * small < p1);
        lemma_nearest_in_bracket(f, (value - small) as nat, 1, below);
    }
}

/// The exponent of the code below is the same or one less.
proof fn lemma_exponent_step(f: Format, code: nat)
    requires
        code > 0,
        exponent_of(f, code) > 0,
    ensures
        exponent_of(f, (code - 1) as nat) == exponent_of(f, code) || exponent_of(
            f,
            (code - 1) as nat,
        ) + 1 == exponent_of(f, code),
{
    let unit = pow2(f.fraction_bits);
    lemma_pow2_pos(f.fraction_bits);
    vstd::arithmetic::div_mod::lemma_fundamental_div_mod(code as int, unit as int);
    vstd::arithmetic::div_mod::lemma_mod_bound(code as int, unit as int);
    vstd::arithmetic::div_mod::lemma_fundamental_div_mod((code - 1) as int, unit as int);
    vstd::arithmetic::div_mod::lemma_mod_bound((code - 1) as int, unit as int);
    let a = code / unit;
    let b = ((code - 1) as nat) / unit;
    assert(b == a || b + 1 == a) by (nonlinear_arith)
        requires
            unit > 0,
            code == unit * a + code % unit,
            code - 1 == unit * b + ((code - 1) as nat) % unit,
            0 <= code % unit < unit,
            0 <= ((code - 1) as nat) % unit < unit,
    ;
}

/// A value with a much smaller exponent is lost in a sum.
proof fn lemma_far_below(f: Format, a: nat, b: nat, qa: nat, ea: nat, qb: nat, eb: nat)
    requires
        a < f.infinity,
        ea > eb + 64,
        qa == significand_of(f, a),
        ea == exponent_of(f, a),
        magnitude(f, a) == qa * pow2(ea),
        magnitude(f, b) == qb * pow2(eb),
        1 <= qa,
        qb < 0x20_0000_0000_0000,
    ensures
        nearest(f, magnitude(f, a) + magnitude(f, b), 1) == a,
        nearest(f, (magnitude(f, a) - magnitude(f, b)) as nat, 1) == a,
        magnitude(f, a) > magnitude(f, b),
{
    let gap = (ea - eb) as nat;
    let va = magnitude(f, a);
    let vb = magnitude(f, b);
    lemma_pow2_adds(eb, gap);
    lemma_pow2_strictly_increases(64, gap);
    vstd::arithmetic::power2::lemma2_to64();
    vstd::arithmetic::power2::lemma2_to64_rest();
    lemma_pow2_pos(eb);
    lemma_pow2_pos(ea);
    let pb = pow2(eb);
    let pg = pow2(gap);
    assert(4 * vb < pow2(ea)) by (nonlinear_arith)
        requires
            vb == qb * pb,
            qb < 0x20_0000_0000_0000,
            pg > 0x1_0000_0000_0000_0000,
            pow2(ea) == pb * pg,
            pb > 0,
    ;
    assert(va >= pow2(ea)) by (nonlinear_arith)
        requires
            va == qa * pow2(ea),
            qa >= 1,
    ;
    lemma_absorbed(f, a, qa, ea, vb);
}

/// The sum of two finite values, the first of which has the larger exponent.
#[verifier::spinoff_prover]
#[verifier::rlimit(30)]
fn add_ordered(
    fraction_bits: u32,
    infinity: u64,
    a_negative: bool,
    a: u64,
    b_negative: bool,
    b: u64,
    Ghost(f): Ghost<Format>,
) -> (result: (bool, u64))
    requires
        is_format(fraction_bits, infinity),
        f == format_of(fraction_bits, infinity),
        a < infinity,
        b < infinity,
        exponent_of(f, a as nat) >= exponent_of(f, b as nat),
    ensures
        (Pattern { negative: result.0, code: result.1 as nat }) == rounded(
            f,
            signed_value(f, Pattern { negative: a_negative, code: a as nat }) + signed_value(
                f,
                Pattern { negative: b_negative, code: b as nat },
            ),
            a_negative && b_negative,
        ),
        result.1 <= infinity,
{
    let (qa, ea) = take_apart(fraction_bits, infinity, a);
    let (qb, eb) = take_apart(fraction_bits, infinity, b);
    let gap: u32 = ea - eb;
    let ghost va = magnitude(f, a as nat);
    let ghost vb = magnitude(f, b as nat);
    if gap > 64 {
        proof {
            lemma_far_below(f, a as nat, b as nat, qa as nat, ea as nat, qb as nat, eb as nat);
        }
        return (a_negative, a);
    }
    proof {
        lemma_gap_fits(qa, gap);
        lemma_pow2_adds(gap as nat, eb as nat);
        lemma_pow2_pos(eb as nat);
        vstd::arithmetic::power2::lemma2_to64();
        let pb = pow2(eb as nat);
        let pg = pow2(gap as nat);
        assert(va == (qa * pg) * pb) by (nonlinear_arith)
            requires
                va == qa * pow2(ea as nat),
                pow2(ea as nat) == pg * pb,
        ;
    }
    let high: u128 = qa as u128 * power_of_two(gap);
    let low: u128 = qb as u128;
    let ghost pb = pow2(eb as nat);
    if a_negative == b_negative {
        let n: u128 = high + low;
        proof {
            lemma_total(high as nat, low as nat, pb);
            lemma_fits(n as nat);
        }
        let code: u64 = round_to_code(
            fraction_bits,
            infinity,
            n,
            eb as i32,
            false,
            Ghost((va + vb) as nat),
            Ghost(1),
            Ghost(0),
        );
        proof {
            if va + vb == 0 {
                lemma_magnitude_small(f);
                lemma_nearest_exact(f, 0, 1, 0);
            }
        }
        (a_negative, code)
    } else if high > low {
        let n: u128 = (high - low) as u128;
        proof {
            lemma_total(n as nat, low as nat, pb);
            lemma_fits(n as nat);
            assert(n * pb > 0) by (nonlinear_arith)
                requires
                    n > 0,
                    pb > 0,
            ;
        }
        let code: u64 = round_to_code(
            fraction_bits,
            infinity,
            n,
            eb as i32,
            false,
            Ghost((va - vb) as nat),
            Ghost(1),
            Ghost(0),
        );
        (a_negative, code)
    } else if high < low {
        let n: u128 = (low - high) as u128;
        proof {
            lemma_total(n as nat, high as nat, pb);
            lemma_fits(n as nat);
            assert(n * pb > 0) by (nonlinear_arith)
                requires
                    n > 0,
                    pb > 0,
            ;
        }
        let code: u64 = round_to_code(
            fraction_bits,
            infinity,
            n,
            eb as i32,
            false,
            Ghost((vb - va) as nat),
            Ghost(1),
            Ghost(0),
        );
        (b_negative, code)
    } else {
        (false, 0)
    }
}

/// The conditions under which `round_to_code` takes an exact value.
proof fn lemma_fits(n: nat)
    requires
        n <= 0x20_0000_0000_0000 * 0x1_0000_0000_0000_0000 + 0x20_0000_0000_0000,
    ensures
        n < pow2(120),
{
    vstd::arithmetic::power2::lemma2_to64();
    vstd::arithmetic::power2::lemma2_to64_rest();
    lemma_pow2_adds(64, 56);
}

proof fn lemma_total(x: nat, y: nat, p: nat)
    ensures
        (x + y) * p == x * p + y * p,
        (x + y + 1) * p * 1 > (x + y) * p || p == 0,
        (x + 1) * p * 1 > x * p || p == 0,
{
    assert((x + y) * p == x * p + y * p) by (nonlinear_arith);
    assert((x + y + 1) * p == (x + y) * p + p) by (nonlinear_arith);
    assert((x + 1) * p == x * p + p) by (nonlinear_arith);
}

proof fn lemma_gap_fits(q: u64, gap: u32)
    requires
        q < 0x20_0000_0000_0000,
        gap <= 64,
    ensures
        q * pow2(gap as nat) <= 0x20_0000_0000_0000 * 0x1_0000_0000_0000_0000,
{
    vstd::arithmetic::power2::lemma2_to64();
    if gap < 64 {
        lemma_pow2_strictly_increases(gap as nat, 64);
    }
    let p = pow2(gap as nat);
    assert(q * p <= 0x20_0000_0000_0000 * 0x1_0000_0000_0000_0000) by (nonlinear_arith)
        requires
            q < 0x20_0000_0000_0000,
            p <= 0x1_0000_0000_0000_0000,
    ;
}

/// The sum of two finite values.
pub(crate) fn add_finite(
    fraction_bits: u32,
    infinity: u64,
    a_negative: bool,
    a: u64,
    b_negative: bool,
    b: u64,
) -> (result: (bool, u64))
    requires
        is_format(fraction_bits, infinity),
        a < infinity,
        b < infinity,
    ensures
        ({
            let f = format_of(fraction_bits, infinity);
            (Pattern { negative: result.0, code: result.1 as nat }) == rounded(
                f,
                signed_value(f, Pattern { negative: a_negative, code: a as nat }) + signed_value(
                    f,
                    Pattern { negative: b_negative, code: b as nat },
                ),
                a_negative && b_negative,
            )
        }),
        result.1 <= infinity,
{
    let ghost f = format_of(fraction_bits, infinity);
    let (_, ea) = take_apart(fraction_bits, infinity, a);
    let (_, eb) = take_apart(fraction_bits, infinity, b);
    if ea >= eb {
        add_ordered(fraction_bits, infinity, a_negative, a, b_negative, b, Ghost(f))
    } else {
        add_ordered(fraction_bits, infinity, b_negative, b, a_negative, a, Ghost(f))
    }
}

/// The code nearest to `n * 2^x / den`, for a value that is exact in these terms.
pub(crate) fn round_exact(
    fraction_bits: u32,
    infinity: u64,
    n: u64,
    x: i32,
    Ghost(num): Ghost<nat>,
    Ghost(den): Ghost<nat>,
    Ghost(k): Ghost<nat>,
) -> (code: u64)
    requires
        is_format(fraction_bits, infinity),
        -3000 <= x <= 3000,
        x + k >= 0,
        den > 0,
        n * pow2((x + k) as nat) * den == num * pow2(k),
    ensures
        code == nearest(format_of(fraction_bits, infinity), num, den),
        code <= infinity,
{
    proof {
        vstd::arithmetic::power2::lemma2_to64();
        lemma_pow2_strictly_increases(64, 120);
        lemma_pow2_pos((x + k) as nat);
        let weight = pow2((x + k) as nat);
        assert(n * weight * den < (n + 1) * weight * den) by (nonlinear_arith)
            requires
                weight > 0,
                den > 0,
        ;
    }
    round_to_code(fraction_bits, infinity, n as u128, x, false, Ghost(num), Ghost(den), Ghost(k))
}

/// The quotient of two finite non-zero values of the format with 23 fraction bits, `2^-149`
/// being its least positive value.
pub(crate) fn divide_finite(infinity: u64, a: u64, b: u64) -> (code: u64)
    requires
        is_format(23, infinity),
        infinity <= 255 * pow2(23),
        0 < a < infinity,
        0 < b < infinity,
    ensures
        ({
            let f = format_of(23, infinity);
            code == nearest(
                f,
                magnitude(f, a as nat) * pow2(149),
                magnitude(f, b as nat),
            )
        }),
        code <= infinity,
{
    let ghost f = format_of(23, infinity);
    let (qa, ea) = take_apart(23, infinity, a);
    let (qb, eb) = take_apart(23, infinity, b);
    let ghost va = magnitude(f, a as nat);
    let ghost vb = magnitude(f, b as nat);
    proof {
        vstd::arithmetic::power2::lemma2_to64();
        lemma_magnitude_small(f);
        lemma_magnitude_order(f, 0, a as nat);
        lemma_magnitude_order(f, 0, b as nat);
        lemma_small_exponent(f, a as nat);
        lemma_small_exponent(f, b as nat);
        assert(qa > 0) by (nonlinear_arith)
            requires
                va == qa * pow2(ea as nat),
                va > 0,
        ;
        assert(qb > 0) by (nonlinear_arith)
            requires
                vb == qb * pow2(eb as nat),
                vb > 0,
        ;
        assert(qa * 0x1_0000_0000_0000_0000 <= 0x100_0000 * 0x1_0000_0000_0000_0000)
            by (nonlinear_arith)
            requires
                qa < 0x100_0000,
        ;
    }
    let top: u128 = qa as u128 * 0x1_0000_0000_0000_0000;
    let divisor: u128 = qb as u128;
    let n: u128 = top / divisor;
    let rest: u128 = top % divisor;
    let x: i32 = ea as i32 - eb as i32 + 85;
    proof {
        vstd::arithmetic::div_mod::lemma_fundamental_div_mod(top as int, divisor as int);
        vstd::arithmetic::div_mod::lemma_mod_bound(top as int, divisor as int);
        assert(n >= 0x200_0000) by (nonlinear_arith)
            requires
                top == divisor * n + rest,
                rest < divisor,
                divisor < 0x100_0000,
                top >= 0x1_0000_0000_0000_0000,
        ;
        assert(n <= top) by (nonlinear_arith)
            requires
                top == divisor * n + rest,
                divisor >= 1,
        ;
        lemma_pow2_adds(64, 56);
        vstd::arithmetic::power2::lemma2_to64_rest();
        lemma_quotient_scale(
            qa as nat,
            ea as nat,
            qb as nat,
            eb as nat,
            n as nat,
            rest as nat,
            va,
            vb,
        );
    }
    round_to_code(
        23,
        infinity,
        n,
        x,
        rest != 0,
        Ghost(va * pow2(149)),
        Ghost(vb),
        Ghost(400),
    )
}

proof fn lemma_small_exponent(f: Format, code: nat)
    requires
        f.fraction_bits == 23,
        code < f.infinity,
        f.infinity <= 255 * pow2(23),
    ensures
        exponent_of(f, code) <= 253,
{
    vstd::arithmetic::power2::lemma2_to64();
    vstd::arithmetic::div_mod::lemma_fundamental_div_mod(code as int, pow2(23) as int);
    let field = code / pow2(23);
    assert(field < 255) by (nonlinear_arith)
        requires
            code == 0x80_0000 * field + code % pow2(23),
            code < 255 * 0x80_0000,
            code % pow2(23) >= 0,
    ;
}

proof fn lemma_quotient_scale(
    qa: nat,
    ea: nat,
    qb: nat,
    eb: nat,
    n: nat,
    rest: nat,
    va: nat,
    vb: nat,
)
    requires
        ea <= 253,
        eb <= 253,
        qb > 0,
        va == qa * pow2(ea),
        vb == qb * pow2(eb),
        qa * 0x1_0000_0000_0000_0000 == qb * n + rest,
        rest < qb,
    ensures
        ({
            let weight = pow2((ea - eb + 485) as nat);
            let num = va * pow2(149);
            &&& n * weight * vb <= num * pow2(400) < (n + 1) * weight * vb
            &&& rest != 0 <==> n * weight * vb != num * pow2(400)
        }),
{
    let weight = pow2((ea - eb + 485) as nat);
    let num = va * pow2(149);
    let p = pow2((ea + 485) as nat);
    let peb = pow2(eb);
    lemma_pow2_adds((ea - eb + 485) as nat, eb);
    assert(((ea - eb + 485) as nat + eb) as nat == (ea + 485) as nat);
    lemma_pow2_adds(149, 400);
    lemma_pow2_adds(ea, 549);
    lemma_pow2_adds((ea + 485) as nat, 64);
    assert(((ea + 485) as nat + 64) as nat == (ea + 549) as nat);
    vstd::arithmetic::power2::lemma2_to64();
    lemma_pow2_pos((ea + 485) as nat);
    assert(num * pow2(400) == (qb * n + rest) * p) by (nonlinear_arith)
        requires
            num == (qa * pow2(ea)) * pow2(149),
            pow2(549) == pow2(149) * pow2(400),
            pow2((ea + 549) as nat) == pow2(ea) * pow2(549),
            pow2((ea + 549) as nat) == p * 0x1_0000_0000_0000_0000,
            qa * 0x1_0000_0000_0000_0000 == qb * n + rest,
    ;
    assert(n * weight * vb == (qb * n) * p) by (nonlinear_arith)
        requires
            vb == qb * peb,
            p == weight * peb,
    ;
    assert((n + 1) * weight * vb == (qb * n + qb) * p) by (nonlinear_arith)
        requires
            vb == qb * peb,
            p == weight * peb,
    ;
    assert((qb * n + rest) * p == (qb * n) * p + rest * p) by (nonlinear_arith);
    assert((qb * n + qb) * p == (qb * n) * p + qb * p) by (nonlinear_arith);
    assert(rest * p < qb * p) by (nonlinear_arith)
        requires
            rest < qb,
            p > 0,
    ;
    assert(rest != 0 ==> rest * p > 0) by (nonlinear_arith)
        requires
            p > 0,
    ;
}

} // verus!

//! Rounding of exact results to the nearest code of a binary floating-point format.

use crate::binary_float::{
    brackets, lemma_magnitude_of_parts, lemma_magnitude_small, lemma_nearest_exact,
    lemma_nearest_in_bracket, magnitude, nearest, Format,
};
use vstd::arithmetic::power2::{
    lemma_pow2_adds, lemma_pow2_pos, lemma_pow2_strictly_increases, lemma_pow2_unfold, pow2,
};
use vstd::prelude::*;

verus! {

/// `2^k`.
pub(crate) fn power_of_two(k: u32) -> (power: u128)
    requires
        k < 127,
    ensures
        power == pow2(k as nat),
        1 <= power <= 0x4000_0000_0000_0000_0000_0000_0000_0000,
{
    let power: u128 = 1u128 << k;
    proof {
        lemma_shift_is_power(k);
        lemma_pow2_pos(k as nat);
    }
    power
}

proof fn lemma_shift_is_power(k: u32)
    requires
        k < 127,
    ensures
        (1u128 << k) == pow2(k as nat),
        (1u128 << k) <= 0x4000_0000_0000_0000_0000_0000_0000_0000,
    decreases k,
{
    assert((1u128 << k) <= 0x4000_0000_0000_0000_0000_0000_0000_0000) by (bit_vector)
        requires
            k < 127,
    ;
    if k == 0 {
        assert((1u128 << 0u32) == 1) by (bit_vector);
        vstd::arithmetic::power2::lemma2_to64();
    } else {
        let j = (k - 1) as u32;
        lemma_shift_is_power(j);
        assert((1u128 << k) == 2 * (1u128 << j)) by (bit_vector)
            requires
                k == j + 1,
                k < 127,
        ;
        lemma_pow2_unfold(k as nat);
    }
}

/// How many binary digits `n` has.
pub(crate) fn bit_length(n: u128) -> (length: u32)
    requires
        0 < n < pow2(126),
    ensures
        0 < length <= 126,
        pow2((length - 1) as nat) <= n < pow2(length as nat),
{
    let mut length: u32 = 1;
    proof {
        vstd::arithmetic::power2::lemma2_to64();
    }
    let mut bound: u128 = 2;
    while bound <= n
        invariant
            0 < length <= 126,
            bound == pow2(length as nat),
            pow2((length - 1) as nat) <= n,
            n < pow2(126),
        decreases 126 - length,
    {
        proof {
            if length == 126 {
                assert(false);
            }
        }
        length = length + 1;
        bound = power_of_two(length);
    }
    length
}

/// The step from a significand `q` with remainder `r` to the nearest code.
proof fn lemma_round_significand(
    f: Format,
    num: nat,
    den: nat,
    n: nat,
    e: nat,
    q: nat,
    r: nat,
    half: nat,
    weight: nat,
    scale: nat,
    inexact: bool,
)
    requires
        den > 0,
        scale > 0,
        weight > 0,
        half > 0,
        n == q * (2 * half) + r,
        r < 2 * half,
        pow2(e) * scale == (2 * half) * weight,
        n * weight * den <= num * scale < (n + 1) * weight * den,
        inexact <==> n * weight * den != num * scale,
        q < 2 * pow2(f.fraction_bits),
        e == 0 || q >= pow2(f.fraction_bits),
    ensures
        ({
            let below = e * pow2(f.fraction_bits) + q;
            let code = if r > half || (r == half && (inexact || below % 2 == 1)) {
                below + 1
            } else {
                below
            };
            &&& below < f.infinity ==> nearest(f, num, den) == code
            &&& below >= f.infinity ==> nearest(f, num, den) == f.infinity
        }),
{
    let below = e * pow2(f.fraction_bits) + q;
    lemma_magnitude_of_parts(f, e, q);
    lemma_magnitude_of_parts(f, e, q + 1);
    assert(e * pow2(f.fraction_bits) + (q + 1) == below + 1);
    let low = magnitude(f, below);
    let high = magnitude(f, below + 1);
    let p = pow2(e);
    let step = weight * den;
    assert(n * weight * den == n * step) by (nonlinear_arith)
        requires
            step == weight * den,
    ;
    assert((n + 1) * weight * den == (n + 1) * step) by (nonlinear_arith)
        requires
            step == weight * den,
    ;
    assert(step > 0) by (nonlinear_arith)
        requires
            step == weight * den,
            weight > 0,
            den > 0,
    ;
    // low * den * scale == q * (2 * half) * step, and so on.
    assert(low * den * scale == (q * (2 * half)) * step) by (nonlinear_arith)
        requires
            low == q * p,
            p * scale == (2 * half) * weight,
            step == weight * den,
    ;
    assert(high * den * scale == ((q + 1) * (2 * half)) * step) by (nonlinear_arith)
        requires
            high == (q + 1) * p,
            p * scale == (2 * half) * weight,
            step == weight * den,
    ;
    let a = q * (2 * half);
    assert((q + 1) * (2 * half) == a + 2 * half) by (nonlinear_arith)
        requires
            a == q * (2 * half),
    ;
    let b = a + 2 * half;
    let m = a + half;
    // The fraction lies in the bracket.
    assert(low * den <= num) by (nonlinear_arith)
        requires
            low * den * scale == a * step,
            a <= n,
            n * step <= num * scale,
            scale > 0,
            step > 0,
    ;
    assert(num < high * den) by (nonlinear_arith)
        requires
            high * den * scale == b * step,
            n + 1 <= b,
            num * scale < (n + 1) * step,
            scale > 0,
            step > 0,
    ;
    assert(brackets(f, num, den, below));
    lemma_nearest_in_bracket(f, num, den, below);
    let double_middle = (low + high) * den;
    assert(double_middle * scale == 2 * (m * step)) by (nonlinear_arith)
        requires
            double_middle == (low + high) * den,
            low * den * scale == a * step,
            high * den * scale == b * step,
            b == a + 2 * half,
            m == a + half,
    ;
    if r < half {
        assert(2 * num < double_middle) by (nonlinear_arith)
            requires
                double_middle * scale == 2 * (m * step),
                n + 1 <= m,
                num * scale < (n + 1) * step,
                scale > 0,
                step > 0,
        ;
    } else if r > half {
        assert(2 * num > double_middle) by (nonlinear_arith)
            requires
                double_middle * scale == 2 * (m * step),
                n >= m + 1,
                n * step <= num * scale,
                scale > 0,
                step > 0,
        ;
    } else if inexact {
        assert(2 * num > double_middle) by (nonlinear_arith)
            requires
                double_middle * scale == 2 * (m * step),
                n == m,
                n * step < num * scale,
                scale > 0,
                step > 0,
        ;
    } else {
        assert(2 * num == double_middle) by (nonlinear_arith)
            requires
                double_middle * scale == 2 * (m * step),
                n == m,
                n * step == num * scale,
                scale > 0,
                step > 0,
        ;
    }
}

/// A fraction below half the least positive value rounds to zero.
proof fn lemma_round_to_zero(f: Format, num: nat, den: nat)
    requires
        2 * num < den,
        f.infinity > 0,
    ensures
        nearest(f, num, den) == 0,
{
    lemma_magnitude_small(f);
    assert(brackets(f, num, den, 0)) by (nonlinear_arith)
        requires
            magnitude(f, 0) == 0,
            magnitude(f, 0 + 1) == 1,
            2 * num < den,
    ;
    assert((magnitude(f, 0) + magnitude(f, 0 + 1)) * den == den) by (nonlinear_arith)
        requires
            magnitude(f, 0) == 0,
            magnitude(f, 0 + 1) == 1,
    ;
    lemma_nearest_in_bracket(f, num, den, 0);
}

/// The format that `fraction_bits` and `infinity` describe.
pub open spec fn format_of(fraction_bits: u32, infinity: u64) -> Format {
    Format { fraction_bits: fraction_bits as nat, infinity: infinity as nat }
}

/// Rounds the fraction `num / den`, of which the caller has computed the leading digits:
/// it lies at or above `n * 2^x` and below `(n + 1) * 2^x`, and strictly above where `inexact`.
/// The power `2^k` keeps the exponents of the contract from being negative.
pub(crate) fn round_to_code(
    fraction_bits: u32,
    infinity: u64,
    n: u128,
    x: i32,
    inexact: bool,
    Ghost(num): Ghost<nat>,
    Ghost(den): Ghost<nat>,
    Ghost(k): Ghost<nat>,
) -> (code: u64)
    requires
        1 <= fraction_bits <= 52,
        infinity > 0,
        den > 0,
        n < pow2(120),
        -3000 <= x <= 3000,
        x + k >= 0,
        inexact ==> n >= pow2((fraction_bits + 2) as nat),
        n * pow2((x + k) as nat) * den <= num * pow2(k) < (n + 1) * pow2((x + k) as nat) * den,
        inexact <==> n * pow2((x + k) as nat) * den != num * pow2(k),
    ensures
        code == nearest(format_of(fraction_bits, infinity), num, den),
        code <= infinity,
{
    let ghost f = format_of(fraction_bits, infinity);
    let ghost weight = pow2((x + k) as nat);
    let ghost scale = pow2(k);
    proof {
        lemma_pow2_pos((x + k) as nat);
        lemma_pow2_pos(k);
        lemma_pow2_pos((fraction_bits + 2) as nat);
        lemma_pow2_strictly_increases(120, 126);
        vstd::arithmetic::power2::lemma2_to64();
    }
    if n == 0 {
        proof {
            assert(num * scale == 0) by (nonlinear_arith)
                requires
                    0 * weight * den == num * scale,
            ;
            assert(num == 0) by (nonlinear_arith)
                requires
                    num * scale == 0,
                    scale > 0,
            ;
            lemma_round_to_zero(f, num, den);
        }
        return 0;
    }
    let length: u32 = bit_length(n);
    proof {
        if length > 120 {
            if length - 1 > 120 {
                lemma_pow2_strictly_increases(120, (length - 1) as nat);
            }
        }
    }
    let digits: i32 = length as i32;
    let kept: i32 = fraction_bits as i32 + 1;
    let e: i32 = if digits + x > kept {
        digits + x - kept
    } else {
        0
    };
    let unit: u64 = power_of_two(fraction_bits) as u64;
    proof {
        lemma_unit_bound(fraction_bits);
        assert(e as u64 * unit <= 3200 * 0x10_0000_0000_0000) by (nonlinear_arith)
            requires
                0 <= e <= 3200,
                unit <= 0x10_0000_0000_0000,
        ;
        lemma_pow2_unfold(kept as nat);
    }
    if e <= x {
        // The value has no more digits than the format keeps.
        let up: u32 = (x - e) as u32;
        proof {
            if inexact {
                lemma_short_value_is_exact(n as nat, length as nat, (fraction_bits + 2) as nat);
            }
            lemma_scaled_digits(n as nat, length as nat, up as nat, kept as nat);
        }
        let q: u64 = (n * power_of_two(up)) as u64;
        let code: u64 = e as u64 * unit + q;
        proof {
            lemma_pow2_adds(up as nat, (e + k) as nat);
            lemma_pow2_adds(e as nat, k);
            assert((up + (e + k)) as nat == (x + k) as nat);
            if e > 0 {
                lemma_top_digit(n as nat, length as nat, up as nat, fraction_bits as nat);
            }
            lemma_magnitude_of_parts(f, e as nat, q as nat);
            let pe = pow2(e as nat);
            let pu = pow2(up as nat);
            assert(num == (q * pe) * den) by (nonlinear_arith)
                requires
                    n * weight * den == num * scale,
                    weight == pu * (pe * scale),
                    q == n * pu,
                    scale > 0,
            ;
            lemma_nearest_exact(f, num, den, code as nat);
        }
        if code >= infinity {
            return infinity;
        }
        return code;
    }
    let down: u32 = (e - x) as u32;
    if down > length {
        proof {
            assert(e == 0);
            lemma_pow2_strictly_increases(length as nat, down as nat);
            lemma_pow2_unfold(down as nat);
            if length < down - 1 {
                lemma_pow2_strictly_increases(length as nat, (down - 1) as nat);
            }
            lemma_pow2_adds(down as nat, (x + k) as nat);
            assert((down + (x + k)) as nat == k);
            let pd = pow2((down - 1) as nat);
            assert(2 * num < den) by (nonlinear_arith)
                requires
                    num * scale < (n + 1) * weight * den,
                    n + 1 <= pd,
                    scale == (2 * pd) * weight,
                    weight > 0,
                    den > 0,
            ;
            lemma_round_to_zero(f, num, den);
        }
        return 0;
    }
    let half: u128 = power_of_two(down - 1);
    let divisor: u128 = 2 * half;
    let q: u128 = n / divisor;
    let r: u128 = n % divisor;
    proof {
        lemma_pow2_unfold(down as nat);
        vstd::arithmetic::div_mod::lemma_fundamental_div_mod(n as int, divisor as int);
        vstd::arithmetic::div_mod::lemma_mod_bound(n as int, divisor as int);
        assert(n == q * (2 * half) + r) by (nonlinear_arith)
            requires
                n == divisor * q + r,
                divisor == 2 * half,
        ;
        lemma_kept_digits(
            n as nat,
            length as nat,
            down as nat,
            kept as nat,
            q as nat,
            r as nat,
        );
        if e > 0 {
            assert(down + kept == length);
        }
        lemma_pow2_adds(e as nat, k);
        lemma_pow2_adds(down as nat, (x + k) as nat);
        assert((down + (x + k)) as nat == (e + k) as nat);
    }
    let below: u64 = e as u64 * unit + q as u64;
    proof {
        lemma_round_significand(
            f,
            num,
            den,
            n as nat,
            e as nat,
            q as nat,
            r as nat,
            half as nat,
            weight,
            scale,
            inexact,
        );
    }
    if below >= infinity {
        return infinity;
    }
    if r > half || (r == half && (inexact || below % 2 == 1)) {
        below + 1
    } else {
        below
    }
}

pub(crate) proof fn lemma_unit_bound(fraction_bits: u32)
    requires
        fraction_bits <= 52,
    ensures
        pow2(fraction_bits as nat) <= 0x10_0000_0000_0000,
{
    lemma_shift_is_power(fraction_bits);
    assert((1u128 << fraction_bits) <= 0x10_0000_0000_0000) by (bit_vector)
        requires
            fraction_bits <= 52,
    ;
}

/// A number of `length` digits that is at least `2^least` has more than `least` digits.
proof fn lemma_short_value_is_exact(n: nat, length: nat, least: nat)
    requires
        n < pow2(length),
        n >= pow2(least),
    ensures
        length > least,
{
    if length < least {
        lemma_pow2_strictly_increases(length, least);
    }
}

/// Shifting up by `up` digits adds as many digits.
proof fn lemma_scaled_digits(n: nat, length: nat, up: nat, kept: nat)
    requires
        n < pow2(length),
        length + up <= kept,
    ensures
        n * pow2(up) < pow2(kept),
{
    lemma_pow2_adds(length, up);
    lemma_pow2_pos(up);
    assert(n * pow2(up) < pow2(length) * pow2(up)) by (nonlinear_arith)
        requires
            n < pow2(length),
            pow2(up) > 0,
    ;
    if length + up < kept {
        lemma_pow2_strictly_increases(length + up, kept);
    }
}

/// A number of `length` digits shifted up to `top + 1` digits is at least `2^top`.
proof fn lemma_top_digit(n: nat, length: nat, up: nat, top: nat)
    requires
        length > 0,
        pow2((length - 1) as nat) <= n,
        length + up == top + 1,
    ensures
        n * pow2(up) >= pow2(top),
{
    lemma_pow2_adds((length - 1) as nat, up);
    assert(n * pow2(up) >= pow2((length - 1) as nat) * pow2(up)) by (nonlinear_arith)
        requires
            n >= pow2((length - 1) as nat),
    ;
}

/// What is left of a number of `length` digits when its last `down` digits are dropped.
proof fn lemma_kept_digits(n: nat, length: nat, down: nat, kept: nat, q: nat, r: nat)
    requires
        kept > 0,
        length > 0,
        pow2((length - 1) as nat) <= n < pow2(length),
        n == q * pow2(down) + r,
        r < pow2(down),
        length <= down + kept,
    ensures
        q < pow2(kept),
        length == down + kept ==> q >= pow2((kept - 1) as nat),
{
    lemma_pow2_adds(kept, down);
    if length < down + kept {
        lemma_pow2_strictly_increases(length, down + kept);
    }
    lemma_pow2_pos(down);
    assert(q < pow2(kept)) by (nonlinear_arith)
        requires
            q * pow2(down) + r < pow2(kept) * pow2(down),
            pow2(down) > 0,
    ;
    if length == down + kept {
        lemma_pow2_adds((kept - 1) as nat, down);
        assert(q >= pow2((kept - 1) as nat)) by (nonlinear_arith)
            requires
                pow2((kept - 1) as nat) * pow2(down) <= q * pow2(down) + r,
                r < pow2(down),
        ;
    }
}

} // verus!

//! How rounding goes with the order of the numbers: rounding never takes a value
//! past a number that binary32 holds. Bounds on exact results are therefore
//! bounds on computed ones.
use vstd::arithmetic::div_mod::*;
use vstd::arithmetic::mul::*;
use vstd::arithmetic::power2::*;
use vstd::prelude::*;

use crate::binary32;
use crate::binary32::Binary32;
use crate::rounding;
use crate::rounding::{INFINITE, STEP};

verus! {

/// The exponent of a code.
spec fn scale(code: nat) -> nat {
    if code < STEP {
        0
    } else {
        (code / (STEP as nat) - 1) as nat
    }
}

/// The significand of a code.
spec fn front(code: nat) -> nat {
    (code - scale(code) * STEP) as nat
}

proof fn lemma_parts(code: nat)
    ensures
        code == scale(code) * STEP + front(code),
        front(code) < 2 * STEP,
        scale(code) > 0 ==> front(code) >= STEP,
        rounding::units(code) == front(code) * pow2(scale(code)),
{
    lemma2_to64();
    if code >= STEP {
        lemma_fundamental_div_mod(code as int, STEP as int);
        let q = code / (STEP as nat);
        assert((q - 1) * STEP == q * STEP - STEP) by (nonlinear_arith);
        assert(STEP as int * q as int == q * STEP) by (nonlinear_arith);
    }
}

proof fn lemma_width_of_product(f: nat, e: nat, q: nat)
    requires
        STEP <= f < 2 * STEP,
    ensures
        f * pow2(e) <= q ==> rounding::width(q) >= e + 24,
        q <= f * pow2(e) ==> rounding::width(q) <= e + 24,
{
    lemma2_to64();
    lemma_pow2_adds(23, e);
    lemma_pow2_adds(24, e);
    lemma_pow2_pos(e);
    let p = pow2(e);
    assert(pow2(23) * p <= f * p < pow2(24) * p) by (nonlinear_arith)
        requires
            pow2(23) <= f < pow2(24),
            p > 0,
    ;
    rounding::lemma_width_bounds(q);
    let w = rounding::width(q);
    if f * p <= q && w < e + 24 {
        rounding::lemma_pow2_monotone(w, (e + 23) as nat);
    }
    if q <= f * p && w > e + 24 {
        rounding::lemma_pow2_monotone((e + 24) as nat, (w - 1) as nat);
    }
}

/// How the rounding of a quotient goes with whole bounds on it.
pub proof fn lemma_half_even_sides(num: nat, unit: nat, f: nat)
    requires
        unit > 0,
    ensures
        f * unit <= num ==> f <= rounding::half_even(num, unit),
        num <= f * unit ==> rounding::half_even(num, unit) <= f,
        num / unit <= rounding::half_even(num, unit) <= num / unit + 1,
{
    let q = num / unit;
    let r = num % unit;
    lemma_fundamental_div_mod(num as int, unit as int);
    if f * unit <= num {
        assert(f <= q) by (nonlinear_arith)
            requires
                f * unit <= num,
                num == unit * q + r,
                r < unit,
                unit > 0,
        ;
    }
    if num <= f * unit {
        assert(q < f || (q == f && r == 0)) by (nonlinear_arith)
            requires
                num <= f * unit,
                num == unit * q + r,
                0 <= r < unit,
                unit > 0,
        ;
    }
}

/// The exponent and the significand that rounding takes, and what is known of
/// them.
proof fn lemma_rounded_parts(num: nat, den: nat) -> (r: (nat, nat))
    requires
        den > 0,
    ensures
        r.1 == rounding::half_even(num, den * pow2(r.0)),
        rounding::width(num / den) <= 24 ==> r.0 == 0,
        rounding::width(num / den) > 24 ==> r.0 == rounding::width(num / den) - 24,
        r.0 > 0 ==> r.1 >= STEP,
        r.1 <= 2 * STEP,
        rounding::rounded(num, den) == (if r.0 * STEP + r.1 < INFINITE {
            r.0 * STEP + r.1
        } else {
            INFINITE as int
        }),
{
    lemma2_to64();
    let q = num / den;
    let w = rounding::width(q);
    let k: nat = if w > 24 {
        (w - 24) as nat
    } else {
        0
    };
    lemma_pow2_pos(k);
    let p = pow2(k);
    let unit = den * p;
    assert(unit > 0) by (nonlinear_arith)
        requires
            den > 0,
            p > 0,
            unit == den * p,
    ;
    lemma_half_even_sides(num, unit, 0);
    if w > 24 {
        lemma_top(num, den, k);
    } else {
        lemma_div_denominator(num as int, den as int, p as int);
        rounding::lemma_width_bounds(q);
        rounding::lemma_pow2_monotone(w, 24);
        assert(q / 1 == q);
    }
    (k, rounding::half_even(num, unit))
}

/// The leading 24 digits of a quotient that has `k` more.
proof fn lemma_top(num: nat, den: nat, k: nat)
    requires
        den > 0,
        rounding::width(num / den) == k + 24,
    ensures
        STEP <= num / (den * pow2(k)) < 2 * STEP,
{
    let step = STEP as nat;
    let q = num / den;
    let p = pow2(k);
    lemma2_to64();
    lemma_pow2_pos(k);
    lemma_div_denominator(num as int, den as int, p as int);
    let top = q / p;
    rounding::lemma_width_bounds(q);
    lemma_fundamental_div_mod(q as int, p as int);
    lemma_pow2_adds(24, k);
    lemma_pow2_adds(23, k);
    assert(step <= top < 2 * step) by (nonlinear_arith)
        requires
            q == p * top + q % p,
            0 <= q % p < p,
            step * p <= q < 2 * step * p,
    ;
}

/// Rounding never goes past a magnitude that binary32 holds: what is at least
/// the magnitude of a code is rounded to that code or above, and what is at most
/// that magnitude to that code or below.
pub proof fn law_rounding_keeps_sides(num: nat, den: nat, code: nat)
    requires
        den > 0,
        code <= INFINITE,
    ensures
        rounding::units(code) * den <= num ==> code <= rounding::rounded(num, den),
        num <= rounding::units(code) * den ==> rounding::rounded(num, den) <= code,
{
    let step = STEP as nat;
    let f = front(code);
    let e = scale(code);
    lemma_parts(code);
    lemma2_to64();
    let p = pow2(e);
    let q = num / den;
    let w = rounding::width(q);
    let (k, _) = lemma_rounded_parts(num, den);
    let unit = den * pow2(k);
    lemma_pow2_pos(k);
    assert(unit > 0) by (nonlinear_arith)
        requires
            den > 0,
            pow2(k) > 0,
            unit == den * pow2(k),
    ;
    lemma_fundamental_div_mod(num as int, den as int);
    lemma_half_even_sides(num, unit, f);
    assert(f * unit == (f * pow2(k)) * den) by (nonlinear_arith)
        requires
            unit == den * pow2(k),
    ;
    if rounding::units(code) * den <= num {
        assert(f * p <= q) by (nonlinear_arith)
            requires
                (f * p) * den <= num,
                num == den * q + num % den,
                0 <= num % den < den,
        ;
        if e > 0 {
            lemma_width_of_product(f, e, q);
        }
        assert(k >= e);
        if k > e {
            assert(k * step >= e * step + step) by (nonlinear_arith)
                requires
                    k >= e + 1,
            ;
        }
    }
    if num <= rounding::units(code) * den {
        assert(q <= f * p) by (nonlinear_arith)
            requires
                (f * p) * den >= num,
                num == den * q + num % den,
                0 <= num % den < den,
        ;
        if e > 0 {
            lemma_width_of_product(f, e, q);
        } else {
            assert(f * p == f) by (nonlinear_arith)
                requires
                    p == 1,
            ;
            rounding::lemma_width_bounds(q);
            if w > 24 {
                rounding::lemma_pow2_monotone(24, (w - 1) as nat);
            }
        }
        assert(k <= e);
        if k < e {
            assert(e * step >= k * step + step) by (nonlinear_arith)
                requires
                    e >= k + 1,
            ;
        }
    }
}

/// What is no larger is rounded to no more.
pub proof fn law_rounding_is_monotone(a: nat, b: nat, den: nat)
    requires
        den > 0,
        a <= b,
    ensures
        rounding::rounded(a, den) <= rounding::rounded(b, den),
{
    let step = STEP as nat;
    lemma2_to64();
    lemma_div_is_ordered(a as int, b as int, den as int);
    let (k, _) = lemma_rounded_parts(a, den);
    let (l, _) = lemma_rounded_parts(b, den);
    rounding::lemma_width_bounds(a / den);
    rounding::lemma_width_bounds(b / den);
    if l < k {
        rounding::lemma_pow2_monotone((l + 24) as nat, (k + 23) as nat);
        rounding::lemma_pow2_monotone(rounding::width(b / den), (l + 24) as nat);
    } else if k == l {
        lemma_pow2_pos(k);
        let unit = den * pow2(k);
        assert(unit > 0) by (nonlinear_arith)
            requires
                unit == den * pow2(k),
                den > 0,
                pow2(k) > 0,
        ;
        lemma_half_even_grows(a, b, unit);
    } else {
        assert(l * step >= k * step + step) by (nonlinear_arith)
            requires
                l >= k + 1,
        ;
    }
}

pub proof fn lemma_signed(negative: bool, code: nat)
    requires
        code <= INFINITE,
    ensures
        binary32::signed(negative, code).code() == code,
        binary32::signed(negative, code).negative() == negative,
{
}

/// A sum lies between any two numbers between which the exact sum lies.
pub proof fn law_sum_between(a: Binary32, b: Binary32, low: Binary32, high: Binary32)
    requires
        a.finite(),
        b.finite(),
        !low.nan(),
        !high.nan(),
        low.value() <= a.value() + b.value() <= high.value(),
    ensures
        !(a + b).nan(),
        low.value() <= (a + b).value() <= high.value(),
{
    let sum = a.value() + b.value();
    let size: nat = if sum < 0 {
        (-sum) as nat
    } else {
        sum as nat
    };
    law_rounding_keeps_sides(size, 1, low.code());
    law_rounding_keeps_sides(size, 1, high.code());
    lemma_rounded_code(size, 1);
    let code = rounding::rounded(size, 1);
    lemma_signed(sum < 0, code);
    binary32::lemma_units_order(code, low.code());
    binary32::lemma_units_order(code, high.code());
    binary32::lemma_units_order(code, 0);
}

proof fn lemma_rounded_code(num: nat, den: nat)
    ensures
        rounding::rounded(num, den) <= INFINITE,
{
}

/// The magnitude of a product is at most any magnitude that the exact product
/// does not exceed, and at least any that it reaches.
pub proof fn law_product_between(a: Binary32, b: Binary32, bound: Binary32)
    requires
        a.finite(),
        b.finite(),
        !bound.nan(),
    ensures
        !(a * b).nan(),
        (a * b).negative() == (a.negative() != b.negative()),
        a.units() * b.units() <= bound.units() * pow2(149) ==> (a * b).units() <= bound.units(),
        bound.units() * pow2(149) <= a.units() * b.units() ==> bound.units() <= (a * b).units(),
{
    let num = a.units() * b.units();
    lemma_pow2_pos(149);
    law_rounding_keeps_sides(num, pow2(149), bound.code());
    let code = rounding::rounded(num, pow2(149));
    lemma_signed(a.negative() != b.negative(), code);
    binary32::lemma_units_order(code, bound.code());
}

/// The magnitude of a quotient is at most any magnitude that the exact quotient
/// does not exceed, and at least any that it reaches.
pub proof fn law_quotient_between(a: Binary32, b: Binary32, bound: Binary32)
    requires
        a.finite(),
        b.finite(),
        b.code() > 0,
        !bound.nan(),
    ensures
        !(a / b).nan(),
        (a / b).negative() == (a.negative() != b.negative()),
        a.units() * pow2(149) <= bound.units() * b.units() ==> (a / b).units() <= bound.units(),
        bound.units() * b.units() <= a.units() * pow2(149) ==> bound.units() <= (a / b).units(),
{
    let num = a.units() * pow2(149);
    binary32::lemma_units_order(b.code(), 0);
    law_rounding_keeps_sides(num, b.units(), bound.code());
    let code = rounding::rounded(num, b.units());
    lemma_signed(a.negative() != b.negative(), code);
    binary32::lemma_units_order(code, bound.code());
}

/// The code of `m` times two to the power `t`.
proof fn lemma_code_of(m: nat, t: nat) -> (code: nat)
    requires
        m <= 0x100_0000,
        t <= 240,
    ensures
        code < INFINITE,
        rounding::units(code) == m * pow2(t),
{
    let step = STEP as nat;
    lemma2_to64();
    if m == 0 {
        assert(m * pow2(t) == 0) by (nonlinear_arith)
            requires
                m == 0,
        ;
        0
    } else if m == 0x100_0000 {
        lemma_pow2_unfold(t + 1);
        assert(m * pow2(t) == 0x80_0000 * pow2(t + 1)) by (nonlinear_arith)
            requires
                m == 0x100_0000,
                pow2(t + 1) == 2 * pow2(t),
        ;
        lemma_carried(t + 1, step);
        (t + 1) * step + step
    } else {
        let w = rounding::width(m);
        rounding::lemma_width_bounds(m);
        if w > 24 {
            rounding::lemma_pow2_monotone(24, (w - 1) as nat);
        }
        if w + t <= 24 {
            lemma_pow2_adds(w, t);
            let p = pow2(t);
            lemma_pow2_pos(t);
            assert(m * p < pow2(w) * p) by (nonlinear_arith)
                requires
                    m < pow2(w),
                    p > 0,
            ;
            rounding::lemma_pow2_monotone(w + t, 24);
            lemma_carried(0, m * p);
            assert((m * p) * pow2(0) == m * p) by (nonlinear_arith)
                requires
                    pow2(0) == 1,
            ;
            m * p
        } else {
            let s = (w + t - 24) as nat;
            let d = (24 - w) as nat;
            lemma_pow2_adds(d, s);
            lemma_pow2_adds(d, w);
            lemma_pow2_adds(d, (w - 1) as nat);
            let f = m * pow2(d);
            lemma_pow2_pos(d);
            assert(pow2((w - 1) as nat) * pow2(d) <= f < pow2(w) * pow2(d)) by (nonlinear_arith)
                requires
                    pow2((w - 1) as nat) <= m < pow2(w),
                    f == m * pow2(d),
                    pow2(d) > 0,
            ;
            assert(pow2(d) * pow2(w) == pow2(w) * pow2(d)) by (nonlinear_arith);
            assert(pow2(d) * pow2((w - 1) as nat) == pow2((w - 1) as nat) * pow2(d))
                by (nonlinear_arith);
            assert(step <= f < 2 * step);
            assert(f * pow2(s) == m * pow2(t)) by (nonlinear_arith)
                requires
                    f == m * pow2(d),
                    pow2(t) == pow2(d) * pow2(s),
            ;
            lemma_carried(s, f);
            s * step + f
        }
    }
}

/// What needs no more than 24 binary digits is not rounded at all.
pub proof fn law_short_numbers_are_exact(num: nat, den: nat, m: nat, t: nat)
    requires
        den > 0,
        m <= 0x100_0000,
        t <= 240,
        num == (m * pow2(t)) * den,
    ensures
        rounding::rounded(num, den) < INFINITE,
        rounding::units(rounding::rounded(num, den)) == m * pow2(t),
{
    let code = lemma_code_of(m, t);
    law_rounding_keeps_sides(num, den, code);
}

/// Rounding to a finite number changes a value by no more than one part in two to
/// the power 24, or by half a unit where that is more.
pub proof fn law_rounding_error(num: nat, den: nat)
    requires
        den > 0,
        rounding::rounded(num, den) < INFINITE,
    ensures
        ({
            let kept = rounding::units(rounding::rounded(num, den)) * den;
            &&& 0x100_0000 * (kept - num) <= num + 0x80_0000 * den
            &&& 0x100_0000 * (num - kept) <= num + 0x80_0000 * den
        }),
{
    let step = STEP as nat;
    lemma2_to64();
    let (k, h) = lemma_rounded_parts(num, den);
    lemma_pow2_pos(k);
    let p = pow2(k);
    let unit = den * p;
    assert(unit > 0) by (nonlinear_arith)
        requires
            den > 0,
            p > 0,
            unit == den * p,
    ;
    lemma_fundamental_div_mod(num as int, unit as int);
    let top = num / unit;
    let r = num % unit;
    assert(h == top ==> h * unit == unit * top) by (nonlinear_arith);
    assert(h == top + 1 ==> h * unit == unit * top + unit) by (nonlinear_arith);
    assert(2 * (h * unit - num) <= unit && 2 * (num - h * unit) <= unit);
    if k > 0 {
        // The significand is not rounded up to the smallest one.
        lemma_top(num, den, k);
        assert(step * unit <= num) by (nonlinear_arith)
            requires
                num == unit * top + r,
                step <= top,
                r >= 0,
                unit > 0,
        ;
    } else {
        assert(unit == den) by (nonlinear_arith)
            requires
                unit == den * p,
                p == 1,
        ;
    }
    lemma_carried(k, h);
    assert((h * p) * den == h * unit) by (nonlinear_arith)
        requires
            unit == den * p,
    ;
}

/// A significand that reaches the next power of two is carried over.
proof fn lemma_carried(k: nat, h: nat)
    requires
        h <= 2 * STEP,
        k > 0 ==> h >= STEP,
    ensures
        rounding::units((k * STEP + h) as nat) == h * pow2(k),
{
    let step = STEP as nat;
    let code = (k * step + h) as nat;
    lemma2_to64();
    if k == 0 && h < step {
    } else if h < 2 * step {
        assert((k + 1) * step == k * step + step) by (nonlinear_arith);
        lemma_fundamental_div_mod_converse(code as int, step as int, (k + 1) as int, h - step);
    } else {
        assert((k + 2) * step == k * step + 2 * step) by (nonlinear_arith);
        lemma_fundamental_div_mod_converse(code as int, step as int, (k + 2) as int, 0);
        lemma_pow2_unfold(k + 1);
        assert(step * pow2(k + 1) == (2 * step) * pow2(k)) by (nonlinear_arith)
            requires
                pow2(k + 1) == 2 * pow2(k),
        ;
    }
}

/// How far `num / den` is from the magnitude of a code, in parts of `1 / den`.
pub open spec fn distance(num: nat, den: nat, code: nat) -> nat {
    let held = rounding::units(code) * den;
    if held < num {
        (num - held) as nat
    } else {
        (held - num) as nat
    }
}

/// Rounding gives the nearest magnitude: no other lies closer.
pub proof fn law_rounded_is_nearest(num: nat, den: nat, code: nat)
    requires
        den > 0,
        rounding::rounded(num, den) < INFINITE,
    ensures
        distance(num, den, rounding::rounded(num, den)) <= distance(num, den, code),
{
    let nearest = rounding::rounded(num, den);
    let (k, h) = lemma_rounded_parts(num, den);
    let p = pow2(k);
    let unit = den * p;
    lemma_pow2_pos(k);
    assert(unit > 0) by (nonlinear_arith)
        requires
            den > 0,
            p > 0,
            unit == den * p,
    ;
    lemma_fundamental_div_mod(num as int, unit as int);
    let top = num / unit;
    if k > 0 {
        lemma_top(num, den, k);
    } else {
        lemma_few(num, den);
    }
    lemma_carried(k, h);
    assert((h * p) * den == h * unit) by (nonlinear_arith)
        requires
            unit == den * p,
    ;
    assert(h == top ==> h * unit == unit * top) by (nonlinear_arith);
    assert(h == top + 1 ==> h * unit == unit * top + unit) by (nonlinear_arith);
    let held = rounding::units(code);
    let kept = rounding::units(nearest);
    if code < nearest {
        binary32::lemma_units_grow(code, nearest);
        assert(held * den <= kept * den) by (nonlinear_arith)
            requires
                held <= kept,
        ;
        if h == top + 1 {
            lemma_carried(k, top);
            assert((top * p) * den == unit * top) by (nonlinear_arith)
                requires
                    unit == den * p,
            ;
            if code < nearest - 1 {
                binary32::lemma_units_grow(code, (nearest - 1) as nat);
            }
            assert(held * den <= (top * p) * den) by (nonlinear_arith)
                requires
                    held <= top * p,
            ;
        }
    } else if code > nearest {
        binary32::lemma_units_grow(nearest, code);
        assert(held * den >= kept * den) by (nonlinear_arith)
            requires
                held >= kept,
        ;
        if h == top {
            lemma_carried(k, h + 1);
            assert(((h + 1) * p) * den == unit * top + unit) by (nonlinear_arith)
                requires
                    unit == den * p,
                    h == top,
            ;
            if code > nearest + 1 {
                binary32::lemma_units_grow(nearest + 1, code);
            }
            assert(held * den >= ((h + 1) * p) * den) by (nonlinear_arith)
                requires
                    held >= (h + 1) * p,
            ;
        }
    }
}

/// A quotient of no more than 24 digits.
proof fn lemma_few(num: nat, den: nat)
    requires
        den > 0,
        rounding::width(num / den) <= 24,
    ensures
        num / (den * pow2(0)) < 2 * STEP,
{
    lemma2_to64();
    rounding::lemma_width_bounds(num / den);
    rounding::lemma_pow2_monotone(rounding::width(num / den), 24);
    assert(den * pow2(0) == den) by (nonlinear_arith)
        requires
            pow2(0) == 1,
    ;
}

/// Whether a number is `h` times two to the power `t` units.
pub open spec fn counts(x: Binary32, h: int, t: nat) -> bool {
    x.finite() && x.value() == h * pow2(t)
}

pub open spec fn size(h: int) -> nat {
    if h < 0 {
        (-h) as nat
    } else {
        h as nat
    }
}

/// The magnitude of a number is that of its count.
pub proof fn lemma_size_of_count(x: Binary32, h: int, t: nat)
    requires
        counts(x, h, t),
    ensures
        x.units() == size(h) * pow2(t),
{
    lemma_pow2_pos(t);
    assert((-h) * pow2(t) == -(h * pow2(t))) by (nonlinear_arith);
    if h < 0 {
        assert(h * pow2(t) < 0) by (nonlinear_arith)
            requires
                h < 0,
                pow2(t) > 0,
        ;
    } else {
        assert(h * pow2(t) >= 0) by (nonlinear_arith)
            requires
                h >= 0,
                pow2(t) > 0,
        ;
    }
}

/// A fraction that is short enough is held as it is.
pub proof fn law_nearest_is_exact(num: nat, den: nat, h: nat, t: nat)
    requires
        den > 0,
        h <= 0x100_0000,
        t <= 240,
        num * pow2(149) == (h * pow2(t)) * den,
    ensures
        counts(binary32::nearest(num, den), h as int, t),
        !binary32::nearest(num, den).negative(),
{
    law_short_numbers_are_exact(num * pow2(149), den, h, t);
}

/// A sum that is short enough is exact.
pub proof fn law_sum_is_exact(a: Binary32, b: Binary32, g: int, h: int, t: nat)
    requires
        counts(a, g, t),
        counts(b, h, t),
        t <= 240,
        -0x100_0000 <= g + h <= 0x100_0000,
    ensures
        counts(a + b, g + h, t),
{
    let sum = a.value() + b.value();
    let p = pow2(t);
    assert(sum == (g + h) * p) by (nonlinear_arith)
        requires
            sum == g * p + h * p,
    ;
    let m = size(g + h);
    lemma_pow2_pos(t);
    assert((-(g + h)) * p == -((g + h) * p)) by (nonlinear_arith);
    law_short_numbers_are_exact(m * p, 1, m, t);
    if g + h > 0 {
        assert((g + h) * p > 0) by (nonlinear_arith)
            requires
                g + h > 0,
                p > 0,
        ;
    } else if g + h < 0 {
        assert((g + h) * p < 0) by (nonlinear_arith)
            requires
                g + h < 0,
                p > 0,
        ;
    }
}

/// A product that is short enough is exact.
pub proof fn law_product_is_exact(a: Binary32, b: Binary32, g: int, h: int, t: nat, u: nat)
    requires
        counts(a, g, t),
        counts(b, h, u),
        149 <= t + u <= 389,
        -0x100_0000 <= g * h <= 0x100_0000,
    ensures
        counts(a * b, g * h, (t + u - 149) as nat),
{
    let m = size(g * h);
    let v = (t + u - 149) as nat;
    lemma_size_of_count(a, g, t);
    lemma_size_of_count(b, h, u);
    lemma_pow2_pos(149);
    lemma_pow2_adds(t, u);
    lemma_pow2_adds(v, 149);
    assert(size(g) * size(h) == m) by (nonlinear_arith)
        requires
            size(g) == (if g < 0 {
                -g
            } else {
                g
            }),
            size(h) == (if h < 0 {
                -h
            } else {
                h
            }),
            m == (if g * h < 0 {
                -(g * h)
            } else {
                g * h
            }),
    ;
    let x = size(g);
    let y = size(h);
    assert((x * pow2(t)) * (y * pow2(u)) == (m * pow2(v)) * pow2(149)) by (nonlinear_arith)
        requires
            x * y == m,
            pow2(t) * pow2(u) == pow2(v) * pow2(149),
    ;
    law_short_numbers_are_exact(a.units() * b.units(), pow2(149), m, v);
    let p = pow2(v);
    lemma_pow2_pos(v);
    lemma_sign(a, g, t);
    lemma_sign(b, h, u);
    assert((-(g * h)) * p == -((g * h) * p)) by (nonlinear_arith);
    assert((g > 0 && h > 0) || (g < 0 && h < 0) ==> g * h > 0) by (nonlinear_arith);
    assert((g > 0 && h < 0) || (g < 0 && h > 0) ==> g * h < 0) by (nonlinear_arith);
    assert(g == 0 || h == 0 ==> g * h == 0) by (nonlinear_arith);
    assert(m == 0 ==> m * p == 0) by (nonlinear_arith);
}

/// The sign of a number is that of its count, where it is not zero.
pub proof fn lemma_sign(x: Binary32, h: int, t: nat)
    requires
        counts(x, h, t),
    ensures
        h > 0 ==> !x.negative(),
        h < 0 ==> x.negative(),
        h == 0 ==> x.units() == 0,
{
    let p = pow2(t);
    lemma_pow2_pos(t);
    assert(h > 0 ==> h * p > 0) by (nonlinear_arith)
        requires
            p > 0,
    ;
    assert(h < 0 ==> h * p < 0) by (nonlinear_arith)
        requires
            p > 0,
    ;
    assert(h == 0 ==> h * p == 0) by (nonlinear_arith);
}

/// The opposite of a number counts the other way.
pub proof fn lemma_opposite_counts(x: Binary32, h: int, t: nat)
    requires
        counts(x, h, t),
    ensures
        counts(x.negated(), -h, t),
{
    lemma_signed(!x.negative(), x.code());
    assert((-h) * pow2(t) == -(h * pow2(t))) by (nonlinear_arith);
}

/// A count may be halved where its unit is doubled.
pub proof fn lemma_double_unit(x: Binary32, h: int, t: nat)
    ensures
        counts(x, h, t + 1) == counts(x, 2 * h, t),
{
    lemma_pow2_unfold(t + 1);
    assert(h * pow2(t + 1) == (2 * h) * pow2(t)) by (nonlinear_arith)
        requires
            pow2(t + 1) == 2 * pow2(t),
    ;
}

/// The magnitudes of a code, of the code above it and of the code one exponent
/// below.
proof fn lemma_neighbours(code: nat)
    requires
        code >= 2 * STEP,
    ensures
        rounding::units(code + 1) == rounding::units(code) + pow2(scale(code)),
        2 * rounding::units((code + 1 - STEP) as nat) == rounding::units(code + 1),
        rounding::units(code) + pow2(scale(code)) <= 0x100_0000 * pow2(scale(code)),
{
    let step = STEP as nat;
    let e = scale(code);
    let f = front(code);
    let p = pow2(e);
    lemma_parts(code);
    lemma_carried(e, f + 1);
    lemma_pow2_unfold(e);
    assert((f + 1) * p == f * p + p) by (nonlinear_arith);
    assert((f + 1) * p <= 0x100_0000 * p) by (nonlinear_arith)
        requires
            f + 1 <= 0x100_0000,
    ;
    assert(e >= 1);
    let less = (e - 1) as nat;
    assert(less * step == e * step - step) by (nonlinear_arith)
        requires
            less == e - 1,
    ;
    lemma_carried(less, f + 1);
    assert(2 * ((f + 1) * pow2(less)) == (f + 1) * p) by (nonlinear_arith)
        requires
            p == 2 * pow2(less),
    ;
}

/// Whether a number lies no further from zero than half of `limit`, but for the
/// last binary digit of `limit`.
pub open spec fn within_half(x: Binary32, limit: Binary32) -> bool {
    !x.nan() && 2 * x.units() <= rounding::units(limit.code() + 1)
}

/// What is at most half of `whole`, and is scaled at most by `limit / whole`, stays
/// within half of `limit`.
pub proof fn law_scaled_to_fit(limit: Binary32, whole: Binary32, part: Binary32, s: Binary32)
    requires
        limit.finite(),
        !limit.negative(),
        pow2(149) <= limit.units(),
        limit.units() <= pow2(200),
        whole.finite(),
        !whole.negative(),
        pow2(149) <= whole.units() <= pow2(200),
        part.finite(),
        2 * part.units() <= whole.units(),
        s.finite(),
        s.units() <= (limit / whole).units(),
    ensures
        within_half(part * s, limit),
{
    let step = STEP as nat;
    let c = limit.code();
    let a = limit.units();
    let w = whole.units();
    let q = (limit / whole).units();
    let t = pow2(149);
    lemma_pow2_pos(149);
    lemma2_to64();
    binary32::lemma_units_order(whole.code(), 0);
    // The limit is far from the smallest numbers.
    if c < 2 * step {
        binary32::lemma_units_order(c, 2 * step);
        lemma_carried(1, step);
        assert(rounding::units(2 * step) == step * pow2(1));
        rounding::lemma_pow2_monotone(24, 149);
        assert(step * pow2(1) == pow2(24));
    }
    lemma_neighbours(c);
    let e = scale(c);
    let p = pow2(e);
    if e < 125 {
        rounding::lemma_pow2_monotone(e, 124);
        lemma_pow2_adds(24, 124);
        rounding::lemma_pow2_monotone(148, 149);
        lemma_pow2_unfold(149);
        lemma_pow2_pos(148);
    }
    rounding::lemma_pow2_monotone(125, e);
    // The quotient is finite, and nearly exact.
    law_quotient_between(limit, whole, limit);
    assert(a * t <= a * w) by (nonlinear_arith)
        requires
            t <= w,
    ;
    assert(q <= a);
    let code = rounding::rounded(a * t, w);
    lemma_signed(false, code);
    binary32::lemma_units_order(code, c);
    law_rounding_error(a * t, w);
    assert(0x100_0000 * (q * w - a * t) <= a * t + 0x80_0000 * w);
    // The slack of the last digit takes up both errors.
    lemma_pow2_adds(23, 200);
    lemma_pow2_adds(125, 149);
    rounding::lemma_pow2_monotone(223, 274);
    assert(pow2(125) * t <= p * t) by (nonlinear_arith)
        requires
            pow2(125) <= p,
    ;
    assert(0x80_0000 * w <= p * t);
    assert(a * t + p * t <= 0x100_0000 * (p * t)) by (nonlinear_arith)
        requires
            a + p <= 0x100_0000 * p,
    ;
    assert(q * w <= a * t + p * t);
    let x = part.units();
    let y = s.units();
    assert(2 * (x * y) <= q * w) by (nonlinear_arith)
        requires
            2 * x <= w,
            y <= q,
    ;
    let n = rounding::units(c + 1);
    assert(n * t == a * t + p * t) by (nonlinear_arith)
        requires
            n == a + p,
    ;
    let b = (c + 1 - step) as nat;
    assert(2 * (rounding::units(b) * t) == n * t) by (nonlinear_arith)
        requires
            2 * rounding::units(b) == n,
    ;
    let bound = binary32::signed(false, b);
    lemma_signed(false, b);
    law_product_between(part, s, bound);
}

/// A finite product is off by no more than one part in two to the power 24, or by
/// half a unit where that is more.
pub proof fn law_product_error(a: Binary32, b: Binary32)
    requires
        a.finite(),
        b.finite(),
        (a * b).finite(),
    ensures
        ({
            let exact = a.value() * b.value();
            let slack = a.units() * b.units() + 0x80_0000 * pow2(149);
            &&& 0x100_0000 * ((a * b).value() * pow2(149) - exact) <= slack
            &&& 0x100_0000 * (exact - (a * b).value() * pow2(149)) <= slack
        }),
{
    let t = pow2(149);
    lemma_pow2_pos(149);
    let num = a.units() * b.units();
    let code = rounding::rounded(num, t);
    lemma_signed(a.negative() != b.negative(), code);
    law_rounding_error(num, t);
    let x = a.units() as int;
    let y = b.units() as int;
    assert((-x) * y == -(x * y)) by (nonlinear_arith);
    assert(x * (-y) == -(x * y)) by (nonlinear_arith);
    assert((-x) * (-y) == x * y) by (nonlinear_arith);
    let r = rounding::units(code) as int;
    assert((-r) * t == -(r * t)) by (nonlinear_arith);
}

/// Rounding a whole number of units does not depend on how the fraction is written.
pub proof fn lemma_whole_units(n: nat, den: nat)
    requires
        den > 0,
    ensures
        rounding::rounded(n * den, den) == rounding::rounded(n, 1),
{
    let (k, _) = lemma_rounded_parts(n * den, den);
    let (l, _) = lemma_rounded_parts(n, 1);
    lemma_div_by_multiple(n as int, den as int);
    assert(k == l);
    let p = pow2(k);
    lemma_pow2_pos(k);
    lemma_fundamental_div_mod(n as int, p as int);
    let q = n / p;
    let r = n % p;
    assert(n * den == q * (den * p) + r * den && 0 <= r * den < den * p) by (nonlinear_arith)
        requires
            n == p * q + r,
            0 <= r < p,
            den > 0,
    ;
    lemma_fundamental_div_mod_converse(
        (n * den) as int,
        (den * p) as int,
        q as int,
        (r * den) as int,
    );
    assert(2 * (r * den) < den * p <==> 2 * r < p) by (nonlinear_arith)
        requires
            den > 0,
    ;
    assert(2 * (r * den) == den * p <==> 2 * r == p) by (nonlinear_arith)
        requires
            den > 0,
    ;
    assert(1 * p == p);
}

/// Twice a magnitude that binary32 holds is held too, unless it is too large.
pub proof fn law_double_is_exact(code: nat)
    requires
        code < INFINITE,
    ensures
        ({
            let twice = rounding::rounded(2 * rounding::units(code), 1);
            twice < INFINITE ==> rounding::units(twice) == 2 * rounding::units(code)
        }),
{
    let step = STEP as nat;
    let e = scale(code);
    let f = front(code);
    lemma_parts(code);
    lemma2_to64();
    lemma_pow2_unfold(e + 1);
    assert(f * pow2(e + 1) == 2 * (f * pow2(e))) by (nonlinear_arith)
        requires
            pow2(e + 1) == 2 * pow2(e),
    ;
    let double: nat = if f < step {
        2 * f
    } else {
        (e + 1) * step + f
    };
    assert((e + 1) * step == e * step + step) by (nonlinear_arith);
    if f < step {
        lemma_carried(0, 2 * f);
        assert((2 * f) * pow2(0) == 2 * f) by (nonlinear_arith)
            requires
                pow2(0) == 1,
        ;
        assert(f * pow2(0) == f) by (nonlinear_arith)
            requires
                pow2(0) == 1,
        ;
    } else {
        lemma_carried(e + 1, f);
    }
    assert(rounding::units(double) == 2 * rounding::units(code));
    if double <= INFINITE {
        law_rounding_keeps_sides(2 * rounding::units(code), 1, double);
    } else {
        binary32::lemma_units_grow(INFINITE as nat, double);
        law_rounding_keeps_sides(2 * rounding::units(code), 1, INFINITE as nat);
    }
}

/// Whole numbers are rounded in order.
proof fn lemma_half_even_grows(a: nat, b: nat, unit: nat)
    requires
        unit > 0,
        a <= b,
    ensures
        rounding::half_even(a, unit) <= rounding::half_even(b, unit),
{
    lemma_div_is_ordered(a as int, b as int, unit as int);
    lemma_fundamental_div_mod(a as int, unit as int);
    lemma_fundamental_div_mod(b as int, unit as int);
}

/// The digits that are kept of a whole number lie between the powers of two around
/// it.
proof fn lemma_kept_bounds(n: nat)
    ensures
        rounding::leading53(n) <= pow2(rounding::width(n)),
        n > 0 ==> pow2((rounding::width(n) - 1) as nat) <= rounding::leading53(n),
{
    let w = rounding::width(n);
    rounding::lemma_width_bounds(n);
    if w > 53 {
        let e = (w - 53) as nat;
        let unit = pow2(e);
        lemma_pow2_pos(e);
        lemma_pow2_adds(53, e);
        lemma_pow2_adds(52, e);
        lemma_half_even_sides(n, unit, pow2(53));
        lemma_half_even_sides(n, unit, pow2(52));
        let h = rounding::half_even(n, unit);
        assert(pow2(52) * unit <= h * unit <= pow2(53) * unit) by (nonlinear_arith)
            requires
                pow2(52) <= h <= pow2(53),
        ;
    }
}

/// Of a number that is no larger, no more is kept.
pub proof fn law_kept_digits_are_monotone(a: nat, b: nat)
    requires
        a <= b,
    ensures
        rounding::leading53(a) <= rounding::leading53(b),
{
    let v = rounding::width(a);
    let w = rounding::width(b);
    rounding::lemma_width_bounds(a);
    rounding::lemma_width_bounds(b);
    lemma_kept_bounds(a);
    lemma_kept_bounds(b);
    if v < w {
        rounding::lemma_pow2_monotone(v, (w - 1) as nat);
    } else if v > w {
        rounding::lemma_pow2_monotone(w, (v - 1) as nat);
    } else if w > 53 {
        let unit = pow2((w - 53) as nat);
        lemma_pow2_pos((w - 53) as nat);
        lemma_half_even_grows(a, b, unit);
        let g = rounding::half_even(a, unit);
        let h = rounding::half_even(b, unit);
        assert(g * unit <= h * unit) by (nonlinear_arith)
            requires
                g <= h,
        ;
    }
}

/// What is added to a number that is not below zero takes it no further the less it
/// is, and never takes it back.
pub proof fn law_sum_is_monotone(a: Binary32, b: Binary32, c: Binary32)
    requires
        !a.nan() && a.value() >= 0,
        !b.nan() && b.value() >= 0,
        !c.nan() && c.value() >= 0,
        b.value() <= c.value(),
    ensures
        !(a + b).nan(),
        !(a + c).nan(),
        a.value() <= (a + b).value() <= (a + c).value(),
{
    let top = INFINITE as nat;
    binary32::lemma_units_order(a.code(), 0);
    binary32::lemma_units_order(b.code(), 0);
    binary32::lemma_units_order(c.code(), 0);
    binary32::lemma_units_order(a.code(), top);
    binary32::lemma_units_order(b.code(), top);
    binary32::lemma_units_order(c.code(), top);
    if a.finite() && b.finite() {
        let s = (a.units() + b.units()) as nat;
        law_rounding_keeps_sides(s, 1, a.code());
        law_rounding_keeps_sides(0, 1, 0);
        let x = rounding::rounded(s, 1);
        lemma_signed(false, x);
        binary32::lemma_units_order(a.code(), x);
        binary32::lemma_units_order(x, top);
        binary32::lemma_units_order(x, 0);
        assert((a + b).value() == rounding::units(x));
        if c.finite() {
            let t = (a.units() + c.units()) as nat;
            law_rounding_is_monotone(s, t, 1);
            let y = rounding::rounded(t, 1);
            lemma_signed(false, y);
            binary32::lemma_units_order(x, y);
            binary32::lemma_units_order(y, 0);
            law_rounding_keeps_sides(t, 1, 0);
            assert((a + c).value() == rounding::units(y));
        }
    }
}

/// A finite sum is off by no more than three parts in two to the power 25.
pub proof fn law_sum_error(a: Binary32, b: Binary32)
    requires
        a.finite(),
        b.finite(),
        (a + b).finite(),
    ensures
        ({
            let exact = a.value() + b.value();
            &&& 0x200_0000 * ((a + b).value() - exact) <= 3 * size(exact)
            &&& 0x200_0000 * (exact - (a + b).value()) <= 3 * size(exact)
        }),
{
    let exact = a.value() + b.value();
    let n = size(exact);
    let code = rounding::rounded(n, 1);
    if exact == 0 {
        binary32::lemma_units_order(0, 0);
        lemma_signed(a.negative() && b.negative(), 0);
    } else {
        lemma_signed(exact < 0, code);
        if n <= 0x100_0000 {
            lemma2_to64();
            law_short_numbers_are_exact(n, 1, n, 0);
        } else {
            law_rounding_error(n, 1);
        }
    }
}

/// A square root is a number that is not below zero, or no number.
pub proof fn law_root_is_not_negative(x: Binary32)
    ensures
        x.root().nan() || x.root().value() >= 0,
{
    if x.finite() && !x.negative() && x.code() > 0 {
        let n = x.units() * pow2(149);
        let top = INFINITE as nat;
        lemma2_to64();
        lemma_pow2_pos(149);
        lemma_pow2_adds(23, 254);
        lemma_pow2_adds(277, 149);
        lemma_pow2_adds(213, 213);
        binary32::lemma_units_order(x.code(), top);
        assert(rounding::units(top) == pow2(277));
        assert(n < pow2(213) * pow2(213)) by (nonlinear_arith)
            requires
                n == x.units() * pow2(149),
                x.units() < pow2(277),
                pow2(277) * pow2(149) == pow2(213) * pow2(213),
                pow2(149) > 0,
        ;
        rounding::lemma_floor_root_between(n, 0, pow2(213));
        let r = rounding::floor_root(n);
        rounding::lemma_width_bounds(r);
        let w = rounding::width(r);
        if w > 213 {
            rounding::lemma_pow2_monotone(213, (w - 1) as nat);
        }
        let k: nat = if w > 24 {
            (w - 24) as nat
        } else {
            0
        };
        lemma_pow2_pos(k);
        if w > 24 {
            lemma_pow2_adds(24, k);
            lemma_fundamental_div_mod(r as int, pow2(k) as int);
            let q = r / pow2(k);
            assert(q < 0x100_0000) by (nonlinear_arith)
                requires
                    r == pow2(k) * q + r % pow2(k),
                    r % pow2(k) >= 0,
                    r < 0x100_0000 * pow2(k),
            ;
        } else {
            rounding::lemma_pow2_monotone(w, 24);
            assert(r / 1 == r);
        }
        let code = rounding::rounded_root(n);
        assert(code <= INFINITE);
        lemma_signed(false, code);
    }
}

/// A finite magnitude is its own rounding.
pub proof fn lemma_rounded_units(code: nat, den: nat)
    requires
        code < INFINITE,
        den > 0,
    ensures
        rounding::rounded(rounding::units(code) * den, den) == code,
{
    law_rounding_keeps_sides(rounding::units(code) * den, den, code);
}

/// Adding nothing changes nothing, and multiplying by one or minus one changes the sign
/// at most.
pub proof fn law_neutral_elements(x: Binary32, zero: Binary32)
    requires
        x.finite(),
        zero.code() == 0,
    ensures
        (x + zero).finite(),
        (x + zero).value() == x.value(),
        (zero + x).finite(),
        (zero + x).value() == x.value(),
        binary32::nearest(1, 1) * x == x,
        x * binary32::nearest(1, 1) == x,
        binary32::nearest(1, 1).negated() * x == x.negated(),
        (zero * x).code() == 0,
        (x * zero).code() == 0,
{
    let t = pow2(149);
    let one = binary32::nearest(1, 1);
    lemma_pow2_pos(149);
    law_nearest_is_exact(1, 1, 1, 149);
    lemma_size_of_count(one, 1, 149);
    binary32::lemma_units_order(0, 0);
    binary32::lemma_units_order(x.code(), 0);
    assert(x.units() * 1 == x.units());
    lemma_rounded_units(x.code(), 1);
    lemma_rounded_units(x.code(), t);
    lemma_rounded_units(0, t);
    assert(t * x.units() == x.units() * t) by (nonlinear_arith);
    assert(zero.units() * x.units() == 0) by (nonlinear_arith)
        requires
            zero.units() == 0,
    ;
    assert(x.units() * zero.units() == 0) by (nonlinear_arith)
        requires
            zero.units() == 0,
    ;
    lemma_signed(x.negative(), x.code());
    lemma_signed(!x.negative(), x.code());
    lemma_signed(one.negative(), one.code());
    lemma_signed(!one.negative(), one.code());
}

/// Sums and products do not depend on the order of their two parts.
pub proof fn law_operations_commute(a: Binary32, b: Binary32)
    ensures
        a + b == b + a,
        a * b == b * a,
{
    assert(a.units() * b.units() == b.units() * a.units()) by (nonlinear_arith);
}

/// The opposite of a sum, a product or a quotient.
pub proof fn law_opposites(a: Binary32, b: Binary32)
    requires
        !a.nan(),
        !b.nan(),
    ensures
        a.negated().negated() == a,
        a.negated().value() == -a.value(),
        !(a + b).nan() && (a + b).value() != 0 ==> a.negated() + b.negated() == (a + b).negated(),
        !(a * b).nan() ==> a.negated() * b == (a * b).negated(),
        !(a / b).nan() ==> a.negated() / b == (a / b).negated(),
{
    lemma_signed(!a.negative(), a.code());
    lemma_signed(!b.negative(), b.code());
    lemma_signed(a.negative(), a.code());
    binary32::lemma_units_order(a.code(), 0);
    binary32::lemma_units_order(b.code(), 0);
    binary32::lemma_units_order(0, 0);
}

/// A finite quotient of numbers that are not below zero is off by no more than one part
/// in two to the power 24, or by half a unit where that is more.
pub proof fn law_quotient_error(a: Binary32, b: Binary32)
    requires
        a.finite(),
        b.finite(),
        a.value() >= 0,
        b.value() > 0,
        (a / b).finite(),
    ensures
        (a / b).value() >= 0,
        ({
            let kept = (a / b).value() * b.value();
            let exact = a.value() * pow2(149);
            &&& 0x100_0000 * (kept - exact) <= exact + 0x80_0000 * b.value()
            &&& 0x100_0000 * (exact - kept) <= exact + 0x80_0000 * b.value()
        }),
{
    let num = a.units() * pow2(149);
    let code = rounding::rounded(num, b.units());
    binary32::lemma_units_order(a.code(), 0);
    binary32::lemma_units_order(b.code(), 0);
    lemma_signed(a.negative() != b.negative(), code);
    if a.code() == 0 {
        assert(num == 0) by (nonlinear_arith)
            requires
                num == a.units() * pow2(149),
                a.units() == 0,
        ;
        law_rounding_keeps_sides(num, b.units(), 0);
    }
    law_rounding_error(num, b.units());
}

/// How far a whole number is off the number that stands for it.
pub proof fn lemma_whole_error(n: nat)
    requires
        n <= 0x1_0000_0000,
    ensures
        ({
            let x = binary32::nearest(n, 1);
            &&& x.finite()
            &&& !x.negative()
            &&& 0x200_0000 * (x.value() - n * pow2(149)) <= 3 * (n * pow2(149))
            &&& 0x200_0000 * (n * pow2(149) - x.value()) <= 3 * (n * pow2(149))
            &&& n > 0 ==> x.value() > 0
            &&& n <= 0x100_0000 ==> x.value() == n * pow2(149)
        }),
{
    let t = pow2(149);
    let num = n * t;
    let top = 0x1_0000_0000 * t;
    lemma_pow2_pos(149);
    lemma2_to64();
    lemma_pow2_adds(32, 149);
    lemma_pow2_adds(24, 125);
    law_nearest_is_exact(0x1_0000_0000, 1, 1, 181);
    assert(num <= top) by (nonlinear_arith)
        requires
            num == n * t,
            top == 0x1_0000_0000 * t,
            n <= 0x1_0000_0000,
    ;
    law_rounding_is_monotone(num, top, 1);
    if n <= 0x100_0000 {
        law_nearest_is_exact(n, 1, n, 149);
        lemma_size_of_count(binary32::nearest(n, 1), n as int, 149);
    } else {
        law_rounding_error(num, 1);
        lemma_pow2_pos(125);
        assert(num >= t) by (nonlinear_arith)
            requires
                num == n * t,
                n >= 1,
        ;
    }
    if n > 0 {
        assert(num > 0) by (nonlinear_arith)
            requires
                num == n * t,
                n > 0,
                t > 0,
        ;
        law_rounding_keeps_sides(num, 1, 1);
        binary32::lemma_units_order(binary32::nearest(n, 1).code(), 0);
    }
}

/// The quotient of two counts is off by no more than one part in two to the power 21.
pub proof fn law_ratio_error(a: nat, b: nat)
    requires
        a <= 0x1_0000_0000,
        0 < b <= 0x1_0000_0000,
    ensures
        ({
            let q = binary32::nearest(a, 1) / binary32::nearest(b, 1);
            &&& q.finite()
            &&& !q.negative()
            &&& 0x20_0000 * (q.value() * b - a * pow2(149)) <= a * pow2(149)
            &&& 0x20_0000 * (a * pow2(149) - q.value() * b) <= a * pow2(149)
        }),
{
    let t = pow2(149) as int;
    let x = binary32::nearest(a, 1);
    let y = binary32::nearest(b, 1);
    let q = x / y;
    lemma_pow2_pos(149);
    lemma_whole_error(a);
    lemma_whole_error(b);
    binary32::lemma_units_order(x.code(), 0);
    binary32::lemma_units_order(y.code(), 0);
    lemma_quotient_is_finite(x, y, a, b);
    law_quotient_error(x, y);
    if a == 0 {
        assert(q.value() == 0) by (nonlinear_arith)
            requires
                2 * (q.value() * y.value()) <= y.value(),
                q.value() >= 0,
                y.value() > 0,
        ;
    }
    lemma_ratio_sides(q.value(), x.value(), y.value(), a as int, b as int, t);
}

proof fn lemma_quotient_is_finite(x: Binary32, y: Binary32, a: nat, b: nat)
    requires
        a <= 0x1_0000_0000,
        0 < b <= 0x1_0000_0000,
        x.finite(),
        !x.negative(),
        y.finite(),
        !y.negative(),
        x.value() <= 2 * (a * pow2(149)),
        2 * y.value() >= b * pow2(149),
        y.value() <= 2 * (b * pow2(149)),
        y.value() > 0,
    ensures
        (x / y).finite(),
        !(x / y).negative(),
{
    let t = pow2(149);
    lemma_pow2_pos(149);
    lemma2_to64_rest();
    lemma_pow2_adds(36, 149);
    let big = binary32::nearest(0x10_0000_0000, 1);
    law_nearest_is_exact(0x10_0000_0000, 1, 1, 185);
    let c = big.units() as int;
    lemma_size_of_count(big, 1, 185);
    let u = x.units() as int;
    let v = y.units() as int;
    assert(u * t <= c * v) by (nonlinear_arith)
        requires
            u <= 2 * (a * t),
            2 * v >= b * t,
            b >= 1,
            a <= 0x1_0000_0000,
            c == 0x10_0000_0000 * t,
            t > 0,
            u >= 0,
            v > 0,
    ;
    binary32::lemma_units_order(y.code(), 0);
    law_rounding_keeps_sides(x.units() * t, y.units(), big.code());
}

/// Three relative errors add up.
proof fn lemma_ratio_sides(q: int, x: int, y: int, a: int, b: int, t: int)
    requires
        q >= 0,
        a >= 0,
        0 < b <= 0x1_0000_0000,
        t == pow2(149),
        y > 0,
        x >= 0,
        0x200_0000 * (x - a * t) <= 3 * (a * t),
        0x200_0000 * (a * t - x) <= 3 * (a * t),
        a > 0 ==> x > 0,
        0x200_0000 * (y - b * t) <= 3 * (b * t),
        0x200_0000 * (b * t - y) <= 3 * (b * t),
        0x100_0000 * (q * y - x * t) <= x * t + 0x80_0000 * y,
        0x100_0000 * (x * t - q * y) <= x * t + 0x80_0000 * y,
        a == 0 ==> q == 0,
    ensures
        0x20_0000 * (q * b - a * t) <= a * t,
        0x20_0000 * (a * t - q * b) <= a * t,
{
    lemma_pow2_pos(149);
    if a == 0 {
        assert(q * b == 0) by (nonlinear_arith)
            requires
                q == 0,
        ;
        assert(a * t == 0) by (nonlinear_arith)
            requires
                a == 0,
        ;
    } else {
        let p = (q * b) * t;
        let s = (a * t) * t;
        let r = x * t;
        let m = q * y;
        lemma2_to64_rest();
        lemma_pow2_adds(60, 89);
        lemma_pow2_pos(89);
        assert(t >= 0x1000_0000_0000_0000);
        assert(b * t <= 0x1_0000_0000 * t) by (nonlinear_arith)
            requires
                b <= 0x1_0000_0000,
                t > 0,
        ;
        assert(a * t >= t) by (nonlinear_arith)
            requires
                a >= 1,
                t > 0,
        ;
        assert(2 * r >= t * t) by (nonlinear_arith)
            requires
                r == x * t,
                2 * x >= t,
                t > 0,
        ;
        assert(t * t >= 0x1000_0000_0000_0000 * t) by (nonlinear_arith)
            requires
                t >= 0x1000_0000_0000_0000,
        ;
        assert(0x100_0000 * y <= r);
        assert(0x200_0000 * (m - p) <= 3 * p && 0x200_0000 * (p - m) <= 3 * p) by (nonlinear_arith)
            requires
                m == q * y,
                p == (q * b) * t,
                q >= 0,
                0x200_0000 * (y - b * t) <= 3 * (b * t),
                0x200_0000 * (b * t - y) <= 3 * (b * t),
        ;
        assert(0x200_0000 * (r - s) <= 3 * s && 0x200_0000 * (s - r) <= 3 * s) by (nonlinear_arith)
            requires
                r == x * t,
                s == (a * t) * t,
                0x200_0000 * (x - a * t) <= 3 * (a * t),
                0x200_0000 * (a * t - x) <= 3 * (a * t),
                t > 0,
        ;
        assert(0x20_0000 * (p - s) <= s && 0x20_0000 * (s - p) <= s);
        assert(0x20_0000 * (q * b - a * t) <= a * t && 0x20_0000 * (a * t - q * b) <= a * t)
            by (nonlinear_arith)
            requires
                p == (q * b) * t,
                s == (a * t) * t,
                t > 0,
                0x20_0000 * (p - s) <= s,
                0x20_0000 * (s - p) <= s,
        ;
    }
}

/// A quotient is rounded as it is when both of its parts are multiplied.
pub proof fn lemma_half_even_scaled(c: nat, d: nat, k: nat)
    requires
        d > 0,
        k > 0,
    ensures
        rounding::half_even(k * c, k * d) == rounding::half_even(c, d),
{
    let a = (k * c) as int;
    let u = d as int;
    let m = c as int / u;
    let r = c as int % u;
    lemma_fundamental_div_mod(c as int, u);
    assert(a == m * (k * u) + k * r && 0 <= k * r < k * u) by (nonlinear_arith)
        requires
            a == k * c,
            c == u * m + r,
            0 <= r < u,
            k > 0,
    ;
    lemma_fundamental_div_mod_converse(a, k * u, m, k * r);
    assert(2 * (k * r) < k * u <==> 2 * r < u) by (nonlinear_arith)
        requires
            k > 0,
    ;
    assert(2 * (k * r) == k * u <==> 2 * r == u) by (nonlinear_arith)
        requires
            k > 0,
    ;
}

/// Rounding does not depend on how a fraction is written.
pub proof fn lemma_same_ratio(a: nat, b: nat, c: nat, d: nat, k: nat)
    requires
        d > 0,
        k > 0,
        a == k * c,
        b == k * d,
    ensures
        rounding::rounded(a, b) == rounding::rounded(c, d),
{
    assert(b > 0) by (nonlinear_arith)
        requires
            b == k * d,
            k > 0,
            d > 0,
    ;
    lemma_div_multiples_vanish_quotient(k as int, c as int, d as int);
    assert(a / b == c / d);
    let (i, _) = lemma_rounded_parts(a, b);
    let (j, _) = lemma_rounded_parts(c, d);
    assert(i == j);
    let e = pow2(i);
    lemma_pow2_pos(i);
    assert(b * e == k * (d * e)) by (nonlinear_arith)
        requires
            b == k * d,
    ;
    assert(d * e > 0) by (nonlinear_arith)
        requires
            d > 0,
            e > 0,
    ;
    lemma_half_even_scaled(c, d * e, k);
}

/// What is larger gives the larger product with a number that is not below zero.
pub proof fn law_product_is_monotone(a: Binary32, b: Binary32, c: Binary32)
    requires
        a.finite(),
        b.finite(),
        c.finite(),
        0 <= a.value() <= b.value(),
        c.value() >= 0,
    ensures
        (a * c).at_most(b * c),
        0 <= (a * c).value(),
{
    let t = pow2(149);
    lemma_pow2_pos(149);
    binary32::lemma_units_order(a.code(), 0);
    binary32::lemma_units_order(b.code(), 0);
    binary32::lemma_units_order(c.code(), 0);
    let x = a.units() * c.units();
    let y = b.units() * c.units();
    assert(x <= y) by (nonlinear_arith)
        requires
            x == a.units() * c.units(),
            y == b.units() * c.units(),
            a.units() <= b.units(),
    ;
    law_rounding_is_monotone(x, y, t);
    let p = rounding::rounded(x, t);
    let q = rounding::rounded(y, t);
    lemma_signed(a.negative() != c.negative(), p);
    lemma_signed(b.negative() != c.negative(), q);
    binary32::lemma_units_order(p, q);
    binary32::lemma_units_order(p, 0);
    lemma_rounded_units(0, t);
    if a.code() == 0 || c.code() == 0 {
        assert(x == 0) by (nonlinear_arith)
            requires
                x == a.units() * c.units(),
                a.units() == 0 || c.units() == 0,
        ;
    }
    if b.code() == 0 || c.code() == 0 {
        assert(y == 0) by (nonlinear_arith)
            requires
                y == b.units() * c.units(),
                b.units() == 0 || c.units() == 0,
        ;
    }
}

/// The square of a root is what the root was taken of, within one part in two to the
/// power 21.
pub proof fn law_root_error(x: Binary32)
    requires
        x.finite(),
        x.value() >= 0,
    ensures
        x.root().finite(),
        x.root().value() >= 0,
        ({
            let kept = x.root().value() * x.root().value();
            let exact = x.value() * pow2(149);
            &&& 0x20_0000 * (kept - exact) <= exact
            &&& 0x20_0000 * (exact - kept) <= exact
        }),
{
    binary32::lemma_units_order(x.code(), 0);
    if x.code() > 0 {
        let n = x.units() * pow2(149);
        let top = INFINITE as nat;
        lemma2_to64();
        lemma_pow2_pos(149);
        lemma_pow2_adds(23, 254);
        lemma_pow2_adds(277, 149);
        lemma_pow2_adds(213, 213);
        lemma_pow2_adds(74, 74);
        lemma_pow2_unfold(149);
        binary32::lemma_units_order(x.code(), top);
        assert(rounding::units(top) == pow2(277));
        assert(pow2(74) * pow2(74) <= n < pow2(213) * pow2(213)) by (nonlinear_arith)
            requires
                n == x.units() * pow2(149),
                1 <= x.units() < pow2(277),
                pow2(277) * pow2(149) == pow2(213) * pow2(213),
                pow2(149) == 2 * (pow2(74) * pow2(74)),
                pow2(149) > 0,
        ;
        rounding::lemma_floor_root_between(n, pow2(74), pow2(213));
        let f = rounding::floor_root(n);
        let w = rounding::width(f);
        rounding::lemma_width_bounds(f);
        if w > 213 {
            rounding::lemma_pow2_monotone(213, (w - 1) as nat);
        }
        if w < 75 {
            rounding::lemma_pow2_monotone(w, 74);
        }
        let k = (w - 24) as nat;
        let p = pow2(k);
        let q = f / p;
        lemma_pow2_pos(k);
        lemma_pow2_adds(24, k);
        lemma_pow2_adds(23, k);
        lemma_fundamental_div_mod(f as int, p as int);
        assert(0x80_0000 <= q < 0x100_0000) by (nonlinear_arith)
            requires
                f == p * q + f % p,
                0 <= f % p < p,
                0x80_0000 * p <= f < 0x100_0000 * p,
        ;
        let low = q * p;
        let high = (q + 1) * p;
        assert(low * low <= n <= high * high) by (nonlinear_arith)
            requires
                low == q * p,
                high == (q + 1) * p,
                f == p * q + f % p,
                0 <= f % p < p,
                f * f <= n < (f + 1) * (f + 1),
        ;
        let code = rounding::rounded_root(n);
        lemma_signed(false, code);
        lemma_root_units(k, q, code);
        let r = rounding::units(code);
        assert(r == low || r == high);
        assert(0x20_0000 * (high * high - low * low) <= low * low) by (nonlinear_arith)
            requires
                low == q * p,
                high == (q + 1) * p,
                q >= 0x80_0000,
        ;
    } else {
        assert(x.units() * pow2(149) == 0) by (nonlinear_arith)
            requires
                x.units() == 0,
        ;
        assert(x.root().value() == 0);
        assert(x.value() == 0);
    }
}

/// What the codes around a root stand for.
proof fn lemma_root_units(k: nat, q: nat, code: nat)
    requires
        0 < k <= 189,
        0x80_0000 <= q < 0x100_0000,
        code == k * STEP + q || code == k * STEP + q + 1,
    ensures
        code < INFINITE,
        code == k * STEP + q ==> rounding::units(code) == q * pow2(k),
        code == k * STEP + q + 1 ==> rounding::units(code) == (q + 1) * pow2(k),
{
    let h = (code - k * STEP) as nat;
    lemma_pow2_unfold(k + 1);
    if h < 0x100_0000 {
        lemma_fundamental_div_mod_converse(
            code as int,
            STEP as int,
            (k + 1) as int,
            (h - STEP) as int,
        );
    } else {
        lemma_fundamental_div_mod_converse(code as int, STEP as int, (k + 2) as int, 0);
        assert(0x80_0000 * (2 * pow2(k)) == 0x100_0000 * pow2(k));
    }
}

/// A magnitude has 24 binary digits at most: it is a multiple of the last that is kept.
proof fn lemma_last_digit(code: nat, k: nat)
    requires
        code < INFINITE,
        rounding::width(rounding::units(code)) == 24 + k,
    ensures
        rounding::units(code) % pow2(k) == 0,
{
    let x = rounding::units(code);
    lemma_pow2_pos(k);
    lemma2_to64();
    let (m, e): (nat, nat) = if code < STEP {
        (code, 0)
    } else {
        ((STEP as nat + code % (STEP as nat)), (code / (STEP as nat) - 1) as nat)
    };
    assert(m * 1 == m);
    assert(x == m * pow2(e));
    lemma_pow2_pos(e);
    rounding::lemma_width_bounds(x);
    lemma_pow2_adds(24, e);
    assert(x < 0x100_0000 * pow2(e)) by (nonlinear_arith)
        requires
            x == m * pow2(e),
            m < 0x100_0000,
            pow2(e) > 0,
    ;
    if k > e {
        rounding::lemma_pow2_monotone(24 + e, (23 + k) as nat);
    }
    let d = (e - k) as nat;
    lemma_pow2_adds(k, d);
    let b = m * pow2(d);
    assert(x == b * pow2(k) + 0) by (nonlinear_arith)
        requires
            x == m * pow2(e),
            b == m * pow2(d),
            pow2(e) == pow2(k) * pow2(d),
    ;
    lemma_fundamental_div_mod_converse(x as int, pow2(k) as int, b as int, 0);
}

/// The root of the square of a number, where that is exact, is the number.
pub proof fn law_root_undoes_square(d: Binary32, square: Binary32)
    requires
        d.finite(),
        square.finite(),
        square.value() >= 0,
        square.value() * pow2(149) == d.value() * d.value(),
    ensures
        square.root().finite(),
        square.root().value() == d.units(),
{
    let n = square.units() * pow2(149);
    let f = d.units();
    binary32::lemma_units_order(square.code(), 0);
    binary32::lemma_units_order(d.code(), 0);
    lemma_pow2_pos(149);
    assert(d.value() * d.value() == f * f) by (nonlinear_arith)
        requires
            d.value() == f || d.value() == -f,
    ;
    if square.code() == 0 {
        assert(f == 0) by (nonlinear_arith)
            requires
                f * f == square.value() * pow2(149),
                square.value() == 0,
        ;
    } else {
        law_root_error(square);
        assert(f * f == n && n < (f + 1) * (f + 1)) by (nonlinear_arith)
            requires
                f * f == n,
        ;
        rounding::lemma_floor_root_is(n, f);
        lemma_pow2_unfold(149);
        lemma_pow2_adds(74, 74);
        assert(f >= pow2(74)) by (nonlinear_arith)
            requires
                f * f == square.units() * pow2(149),
                square.units() >= 1,
                pow2(149) == 2 * (pow2(74) * pow2(74)),
                f >= 0,
        ;
        let w = rounding::width(f);
        rounding::lemma_width_bounds(f);
        if w < 75 {
            rounding::lemma_pow2_monotone(w, 74);
        }
        let k = (w - 24) as nat;
        let p = pow2(k);
        let q = f / p;
        lemma_pow2_pos(k);
        lemma2_to64();
        lemma_pow2_adds(24, k);
        lemma_pow2_adds(23, k);
        lemma_last_digit(d.code(), k);
        lemma_fundamental_div_mod(f as int, p as int);
        assert(q * p == f) by (nonlinear_arith)
            requires
                f == p * q,
        ;
        assert(0x80_0000 <= q < 0x100_0000) by (nonlinear_arith)
            requires
                f == q * p,
                p > 0,
                0x80_0000 * p <= f < 0x100_0000 * p,
        ;
        let middle = (2 * q + 1) * p;
        assert(4 * n < middle * middle) by (nonlinear_arith)
            requires
                middle == (2 * q + 1) * p,
                n == f * f,
                f == q * p,
                p > 0,
                q > 0,
        ;
        let code = rounding::rounded_root(n);
        assert(code == k * STEP + q);
        binary32::lemma_units_order(square.code(), INFINITE as nat);
        if k > 189 {
            lemma_pow2_adds(23, 254);
            rounding::lemma_pow2_monotone(213, (w - 1) as nat);
            lemma_pow2_adds(277, 149);
            lemma_pow2_adds(213, 213);
            assert(rounding::units(INFINITE as nat) == pow2(277));
            assert(false) by (nonlinear_arith)
                requires
                    f >= pow2(213),
                    f * f == square.units() * pow2(149),
                    square.units() < pow2(277),
                    pow2(277) * pow2(149) == pow2(213) * pow2(213),
                    pow2(149) > 0,
                    f >= 0,
                    pow2(213) >= 0,
            ;
        }
        lemma_root_units(k, q, code);
        lemma_signed(false, code);
    }
}

/// What is kept of a number is off by no more than one part in two to the power 53.
pub proof fn law_kept_digits_error(x: nat)
    ensures
        0x20_0000_0000_0000 * (rounding::leading53(x) - x) <= x,
        0x20_0000_0000_0000 * (x - rounding::leading53(x)) <= x,
{
    let w = rounding::width(x);
    if w > 53 {
        let e = (w - 53) as nat;
        let unit = pow2(e);
        let h = rounding::half_even(x, unit);
        lemma_pow2_pos(e);
        lemma2_to64_rest();
        lemma_pow2_adds(52, e);
        rounding::lemma_width_bounds(x);
        lemma_fundamental_div_mod(x as int, unit as int);
        let q = x / unit;
        let r = x % unit;
        assert(2 * (h * unit - x) <= unit && 2 * (x - h * unit) <= unit) by (nonlinear_arith)
            requires
                x == unit * q + r,
                (h == q && 2 * r <= unit) || (h == q + 1 && 2 * r >= unit),
                0 <= r < unit,
        ;
    }
}

/// The share `k` of `n` of a number that is not below zero, multiplied first and divided
/// then, is off by no more than one part in two to the power 20 and two units.
pub proof fn law_share_error(total: Binary32, k: nat, n: nat)
    requires
        k <= 0x1_0000_0000,
        0 < n <= 0x1_0000_0000,
        total.finite(),
        total.value() >= 0,
        (total * binary32::nearest(k, 1)).finite(),
        (total * binary32::nearest(k, 1) / binary32::nearest(n, 1)).finite(),
    ensures
        ({
            let q = total * binary32::nearest(k, 1) / binary32::nearest(n, 1);
            let exact = total.value() * k;
            let kept = q.value() * n;
            &&& q.value() >= 0
            &&& 0x10_0000 * (kept - exact) <= exact + 0x20_0000 * n
            &&& 0x10_0000 * (exact - kept) <= exact + 0x20_0000 * n
        }),
{
    let a = binary32::nearest(k, 1);
    let d = binary32::nearest(n, 1);
    let x = total * a;
    let t = pow2(149) as int;
    lemma_pow2_pos(149);
    lemma_whole_error(k);
    lemma_whole_error(n);
    law_product_error(total, a);
    binary32::lemma_units_order(total.code(), 0);
    binary32::lemma_units_order(a.code(), 0);
    law_product_is_monotone(total, total, a);
    law_quotient_error(x, d);
    lemma_share_sides(
        total.value(),
        a.value(),
        d.value(),
        x.value(),
        (x / d).value(),
        k as int,
        n as int,
        t,
    );
}

proof fn lemma_share_sides(l: int, a: int, d: int, x: int, q: int, k: int, n: int, t: int)
    requires
        l >= 0,
        q >= 0,
        x >= 0,
        k >= 0,
        n >= 1,
        t > 0,
        0x200_0000 * (a - k * t) <= 3 * (k * t),
        0x200_0000 * (k * t - a) <= 3 * (k * t),
        0x200_0000 * (d - n * t) <= 3 * (n * t),
        0x200_0000 * (n * t - d) <= 3 * (n * t),
        0x100_0000 * (x * t - l * a) <= l * a + 0x80_0000 * t,
        0x100_0000 * (l * a - x * t) <= l * a + 0x80_0000 * t,
        0x100_0000 * (q * d - x * t) <= x * t + 0x80_0000 * d,
        0x100_0000 * (x * t - q * d) <= x * t + 0x80_0000 * d,
    ensures
        0x10_0000 * (q * n - l * k) <= l * k + 0x20_0000 * n,
        0x10_0000 * (l * k - q * n) <= l * k + 0x20_0000 * n,
{
    let p = (q * n) * t;
    let s = (l * k) * t;
    let w = n * t;
    let u = q * d;
    let v = l * a;
    assert(0x200_0000 * (u - p) <= 3 * p && 0x200_0000 * (p - u) <= 3 * p && p >= 0)
        by (nonlinear_arith)
        requires
            p == (q * n) * t,
            u == q * d,
            q >= 0,
            n >= 1,
            t > 0,
            0x200_0000 * (d - n * t) <= 3 * (n * t),
            0x200_0000 * (n * t - d) <= 3 * (n * t),
    ;
    assert(0x200_0000 * (v - s) <= 3 * s && 0x200_0000 * (s - v) <= 3 * s && s >= 0)
        by (nonlinear_arith)
        requires
            s == (l * k) * t,
            v == l * a,
            l >= 0,
            k >= 0,
            t > 0,
            0x200_0000 * (a - k * t) <= 3 * (k * t),
            0x200_0000 * (k * t - a) <= 3 * (k * t),
    ;
    assert(w >= t) by (nonlinear_arith)
        requires
            w == n * t,
            n >= 1,
            t > 0,
    ;
    let r = x * t;
    assert(0x10_0000 * (p - s) <= s + 0x20_0000 * w && 0x10_0000 * (s - p) <= s + 0x20_0000 * w);
    assert(0x10_0000 * (q * n - l * k) <= l * k + 0x20_0000 * n && 0x10_0000 * (l * k - q * n) <= l
        * k + 0x20_0000 * n) by (nonlinear_arith)
        requires
            p == (q * n) * t,
            s == (l * k) * t,
            w == n * t,
            t > 0,
            0x10_0000 * (p - s) <= s + 0x20_0000 * w,
            0x10_0000 * (s - p) <= s + 0x20_0000 * w,
    ;
}

/// How far a fraction is off the number that stands for it.
pub proof fn lemma_fraction_error(num: nat, den: nat)
    requires
        0 < num <= 0x10_0000,
        0 < den <= 0x10_0000,
    ensures
        ({
            let x = binary32::nearest(num, den);
            &&& x.finite()
            &&& !x.negative()
            &&& x.value() > 0
            &&& 0x200_0000 * (x.value() * den - num * pow2(149)) <= 3 * (num * pow2(149))
            &&& 0x200_0000 * (num * pow2(149) - x.value() * den) <= 3 * (num * pow2(149))
        }),
{
    let t = pow2(149);
    let n = num * t;
    let x = binary32::nearest(num, den);
    lemma_pow2_pos(149);
    lemma2_to64_rest();
    lemma2_to64();
    lemma_pow2_adds(60, 89);
    lemma_pow2_pos(89);
    assert(n >= t && n <= (0x10_0000 * t) * den) by (nonlinear_arith)
        requires
            n == num * t,
            1 <= num <= 0x10_0000,
            den >= 1,
            t > 0,
    ;
    lemma_whole_error(0x10_0000);
    let top = binary32::nearest(0x10_0000, 1);
    law_rounding_keeps_sides(n, den, top.code());
    let code = rounding::rounded(n, den);
    lemma_signed(false, code);
    law_rounding_error(n, den);
    assert(1 * den <= n);
    law_rounding_keeps_sides(n, den, 1);
    binary32::lemma_units_order(code, 0);
    let kept = rounding::units(code) * den;
    assert(0x80_0000 * den <= 0x800_0000_0000);
    assert(2 * (0x80_0000 * den) <= n);
}

/// A fraction of a number: multiplying by `num / den` is off by no more than one part in
/// two to the power 22, or one unit.
pub proof fn law_fraction_of_error(num: nat, den: nat, x: Binary32)
    requires
        0 < num <= 0x10_0000,
        0 < den <= 0x10_0000,
        x.finite(),
        (binary32::nearest(num, den) * x).finite(),
    ensures
        x * binary32::nearest(num, den) == binary32::nearest(num, den) * x,
        ({
            let kept = (binary32::nearest(num, den) * x).value() * den;
            let exact = num * x.value();
            &&& 0x40_0000 * (kept - exact) <= num * x.units() + 0x40_0000 * den
            &&& 0x40_0000 * (exact - kept) <= num * x.units() + 0x40_0000 * den
        }),
{
    let f = binary32::nearest(num, den);
    let t = pow2(149) as int;
    lemma_pow2_pos(149);
    law_operations_commute(f, x);
    lemma_fraction_error(num, den);
    law_product_error(f, x);
    let y = (f * x).value();
    let v = x.value();
    let u = x.units() as int;
    let g = f.value();
    let n = num as int;
    let d = den as int;
    assert(f.units() == g);
    assert(0x40_0000 * ((y * d) * t - (n * v) * t) <= (n * u) * t + 0x40_0000 * (d * t) && 0x40_0000
        * ((n * v) * t - (y * d) * t) <= (n * u) * t + 0x40_0000 * (d * t)) by {
        lemma_fraction_sides(y, v, u, g, n, d, t);
    }
    assert(0x40_0000 * (y * d - n * v) <= n * u + 0x40_0000 * d && 0x40_0000 * (n * v - y * d) <= n
        * u + 0x40_0000 * d) by (nonlinear_arith)
        requires
            t > 0,
            0x40_0000 * ((y * d) * t - (n * v) * t) <= (n * u) * t + 0x40_0000 * (d * t),
            0x40_0000 * ((n * v) * t - (y * d) * t) <= (n * u) * t + 0x40_0000 * (d * t),
    ;
}

proof fn lemma_fraction_sides(y: int, v: int, u: int, g: int, n: int, d: int, t: int)
    requires
        v == u || v == -u,
        u >= 0,
        g > 0,
        n > 0,
        d > 0,
        t > 0,
        0x200_0000 * (g * d - n * t) <= 3 * (n * t),
        0x200_0000 * (n * t - g * d) <= 3 * (n * t),
        0x100_0000 * (y * t - g * v) <= g * u + 0x80_0000 * t,
        0x100_0000 * (g * v - y * t) <= g * u + 0x80_0000 * t,
    ensures
        0x40_0000 * ((y * d) * t - (n * v) * t) <= (n * u) * t + 0x40_0000 * (d * t),
        0x40_0000 * ((n * v) * t - (y * d) * t) <= (n * u) * t + 0x40_0000 * (d * t),
{
    let a = (y * d) * t;
    let b = (n * v) * t;
    let c = (n * u) * t;
    let e = d * t;
    let m = (g * d) * v;
    let p = (g * d) * u;
    assert(0x100_0000 * (a - m) <= p + 0x80_0000 * e && 0x100_0000 * (m - a) <= p + 0x80_0000 * e)
        by (nonlinear_arith)
        requires
            a == (y * d) * t,
            m == (g * d) * v,
            p == (g * d) * u,
            e == d * t,
            d > 0,
            0x100_0000 * (y * t - g * v) <= g * u + 0x80_0000 * t,
            0x100_0000 * (g * v - y * t) <= g * u + 0x80_0000 * t,
    ;
    assert(0x200_0000 * (p - c) <= 3 * c && 0x200_0000 * (c - p) <= 3 * c) by (nonlinear_arith)
        requires
            p == (g * d) * u,
            c == (n * u) * t,
            u >= 0,
            0x200_0000 * (g * d - n * t) <= 3 * (n * t),
            0x200_0000 * (n * t - g * d) <= 3 * (n * t),
    ;
    assert((m == p && b == c) || (m == -p && b == -c)) by (nonlinear_arith)
        requires
            v == u || v == -u,
            m == (g * d) * v,
            p == (g * d) * u,
            b == (n * v) * t,
            c == (n * u) * t,
    ;
    assert(c >= 0 && e > 0) by (nonlinear_arith)
        requires
            c == (n * u) * t,
            e == d * t,
            n > 0,
            u >= 0,
            t > 0,
            d > 0,
    ;
}

}

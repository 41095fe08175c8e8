//! Rounding of exact quotients to the nearest binary floating-point encoding.
//!
//! A finite binary32 magnitude is a whole number of units of two to the power
//! -149. Its code (the encoding without the sign bit) grows with it, so rounding
//! to the nearest value is rounding to the nearest code.
use vstd::arithmetic::div_mod::*;
use vstd::arithmetic::mul::*;
use vstd::arithmetic::power2::*;
use vstd::prelude::*;

verus! {

/// The code of infinity: one above the code of the largest finite value.
pub const INFINITE: u32 = 0x7f80_0000;

/// The codes of one exponent: the number of values between two powers of two.
pub const STEP: u32 = 0x0080_0000;

/// The number of binary digits of `n`.
pub open spec fn width(n: nat) -> nat
    decreases n,
{
    if n == 0 {
        0
    } else {
        1 + width(n / 2)
    }
}

/// The whole number nearest to `num / unit`; the even one of two equally near.
pub open spec fn half_even(num: nat, unit: nat) -> nat {
    let q = num / unit;
    let r = num % unit;
    if 2 * r < unit || (2 * r == unit && q % 2 == 0) {
        q
    } else {
        q + 1
    }
}

/// The code of the binary32 magnitude nearest to `num / den` units: 24 leading
/// binary digits are kept (all of the whole part, where it has fewer), half way
/// goes to the even code, and what is too large becomes infinity.
pub open spec fn rounded(num: nat, den: nat) -> nat {
    let w = width(num / den);
    let k: nat = if w > 24 {
        (w - 24) as nat
    } else {
        0
    };
    let code = k * STEP as nat + half_even(num, den * pow2(k));
    if code < INFINITE as nat {
        code
    } else {
        INFINITE as nat
    }
}

/// `num` with its leading 53 binary digits kept and the rest rounded off to the
/// nearest, half way to even: what binary64 keeps of a whole number of units.
pub open spec fn leading53(num: nat) -> nat {
    let w = width(num);
    if w > 53 {
        let unit = pow2((w - 53) as nat);
        half_even(num, unit) * unit
    } else {
        num
    }
}

/// The whole part of the square root of `n`.
pub open spec fn floor_root(n: nat) -> nat {
    choose|r: nat| is_floor_root(n, r)
}

pub open spec fn is_floor_root(n: nat, r: nat) -> bool {
    r * r <= n < (r + 1) * (r + 1)
}

/// The code of the binary32 magnitude nearest to the square root of `n` units,
/// half way to even.
pub open spec fn rounded_root(n: nat) -> nat {
    let w = width(floor_root(n));
    let k: nat = if w > 24 {
        (w - 24) as nat
    } else {
        0
    };
    let q = floor_root(n) / pow2(k);
    let middle = (2 * q + 1) * pow2(k);
    k * STEP as nat + (if 4 * n < middle * middle || (4 * n == middle * middle && q % 2 == 0) {
        q
    } else {
        q + 1
    })
}

/// The number of units that the code `code` stands for.
pub open spec fn units(code: nat) -> nat {
    if code < STEP {
        code
    } else {
        (STEP as nat + code % (STEP as nat)) * pow2((code / (STEP as nat) - 1) as nat)
    }
}

/// `num / den` is `m` steps of two to the power `e`, and a part of a step more
/// exactly where `more` holds.
pub open spec fn spans(m: nat, e: int, more: bool, num: nat, den: nat) -> bool {
    let unit = pow2((e + 1000) as nat) * den;
    let whole = num * pow2(1000);
    if more {
        m * unit < whole < (m + 1) * unit
    } else {
        whole == m * unit
    }
}

/// `num / den` is `m` steps of two to the power `e` and a rest below one step;
/// `half` tells whether the rest is at least half a step, and `more` whether it
/// is above zero, or above the half where there is one.
spec fn cut(m: nat, e: int, half: bool, more: bool, num: nat, den: nat) -> bool {
    let unit = pow2((e + 1000) as nat) * den;
    let rest = num * pow2(1000) - m * unit;
    &&& 0 <= rest < unit
    &&& half <==> 2 * rest >= unit
    &&& more <==> (if half {
        2 * rest > unit
    } else {
        rest > 0
    })
}

pub proof fn lemma_width_bounds(n: nat)
    ensures
        n < pow2(width(n)),
        n > 0 ==> width(n) > 0 && pow2((width(n) - 1) as nat) <= n,
    decreases n,
{
    lemma2_to64();
    if n > 0 {
        lemma_width_bounds(n / 2);
        lemma_pow2_unfold(width(n));
        if n / 2 > 0 {
            lemma_pow2_unfold((width(n) - 1) as nat);
        }
    }
}

pub proof fn lemma_width_is(n: nat, w: nat)
    requires
        n < pow2(w),
        w > 0 ==> pow2((w - 1) as nat) <= n,
    ensures
        width(n) == w,
{
    lemma_width_bounds(n);
    lemma2_to64();
    if n > 0 {
        if width(n) < w {
            lemma_pow2_monotone(width(n), (w - 1) as nat);
        }
        if w < width(n) {
            lemma_pow2_monotone(w, (width(n) - 1) as nat);
        }
    } else if w > 0 {
        lemma_pow2_pos((w - 1) as nat);
    }
}

pub proof fn lemma_pow2_monotone(a: nat, b: nat)
    requires
        a <= b,
    ensures
        pow2(a) <= pow2(b),
{
    if a < b {
        lemma_pow2_strictly_increases(a, b);
    }
}

/// Dropping the lowest binary digit of `m` keeps what was cut.
proof fn lemma_cut_halves(m: nat, e: int, half: bool, more: bool, num: nat, den: nat)
    requires
        cut(m, e, half, more, num, den),
        e >= -1000,
        den > 0,
    ensures
        cut(m / 2, e + 1, m % 2 == 1, half || more, num, den),
{
    let unit = pow2((e + 1000) as nat) * den;
    let unit2 = pow2((e + 1 + 1000) as nat) * den;
    let b = m % 2;
    lemma_pow2_unfold((e + 1 + 1000) as nat);
    assert(unit2 == 2 * unit) by (nonlinear_arith)
        requires
            unit2 == pow2((e + 1 + 1000) as nat) * den,
            unit == pow2((e + 1000) as nat) * den,
            pow2((e + 1 + 1000) as nat) == 2 * pow2((e + 1000) as nat),
    ;
    assert(m * unit == (m / 2) * unit2 + b * unit) by (nonlinear_arith)
        requires
            m == 2 * (m / 2) + b,
            unit2 == 2 * unit,
    ;
    assert(b == 0 ==> b * unit == 0);
    assert(b == 1 ==> b * unit == unit);
}

/// What was cut tells the whole part, the rest, and how the quotient rounds.
proof fn lemma_cut_divides(m: nat, e: nat, half: bool, more: bool, num: nat, den: nat)
    requires
        cut(m, e as int, half, more, num, den),
        den > 0,
    ensures
        den * pow2(e) > 0,
        num / (den * pow2(e)) == m,
        half <==> 2 * (num % (den * pow2(e))) >= den * pow2(e),
        half || more <==> num % (den * pow2(e)) > 0,
        half_even(num, den * pow2(e)) == m + (if half && (more || m % 2 == 1) {
            1nat
        } else {
            0nat
        }),
{
    let p = pow2(1000);
    let unit = den * pow2(e);
    let r = num - m * unit;
    lemma_pow2_pos(1000);
    lemma_pow2_pos(e);
    lemma_pow2_adds(e, 1000);
    assert(pow2((e as int + 1000) as nat) * den == unit * p && unit > 0) by (nonlinear_arith)
        requires
            pow2((e as int + 1000) as nat) == pow2(e) * p,
            unit == den * pow2(e),
            den > 0,
            pow2(e) > 0,
    ;
    assert(num * p - m * (unit * p) == r * p) by (nonlinear_arith)
        requires
            r == num - m * unit,
    ;
    assert(0 <= r < unit && (2 * r >= unit <==> 2 * (r * p) >= unit * p) && (2 * r > unit <==> 2 * (
    r * p) > unit * p) && (r > 0 <==> r * p > 0)) by (nonlinear_arith)
        requires
            0 <= r * p < unit * p,
            p > 0,
    ;
    lemma_fundamental_div_mod_converse(num as int, unit as int, m as int, r);
}

/// Where at most 24 digits are left, what was cut tells how the quotient rounds.
proof fn lemma_cut_rounds(m: nat, e: nat, half: bool, more: bool, num: nat, den: nat)
    requires
        cut(m, e as int, half, more, num, den),
        m < 0x100_0000,
        e == 0 || m >= 0x80_0000,
        den > 0,
    ensures
        ({
            let up: nat = if half && (more || m % 2 == 1) {
                1
            } else {
                0
            };
            let code = e * STEP as nat + m + up;
            rounded(num, den) == (if code < INFINITE as nat {
                code
            } else {
                INFINITE as nat
            })
        }),
{
    let unit = den * pow2(e);
    lemma_cut_divides(m, e, half, more, num, den);
    lemma_fundamental_div_mod(num as int, unit as int);
    lemma_mod_bound(num as int, unit as int);
    let r = num % unit;
    let f = num / den;
    assert(m * pow2(e) <= f < (m + 1) * pow2(e)) by {
        assert((m * pow2(e)) * den <= num < ((m + 1) * pow2(e)) * den) by (nonlinear_arith)
            requires
                num == unit * m + r,
                0 <= r < unit,
                unit == den * pow2(e),
        ;
        lemma_fundamental_div_mod(num as int, den as int);
        lemma_mod_bound(num as int, den as int);
        let lo = m * pow2(e);
        let hi = (m + 1) * pow2(e);
        let rem = num % den;
        assert(lo <= f < hi) by (nonlinear_arith)
            requires
                lo * den <= num < hi * den,
                num == den * f + rem,
                0 <= rem < den,
        ;
    }
    lemma2_to64();
    if e == 0 {
        assert(f == m) by (nonlinear_arith)
            requires
                m * pow2(e) <= f < (m + 1) * pow2(e),
                pow2(e) == 1,
        ;
        lemma_width_bounds(f);
        if width(f) > 24 {
            lemma_pow2_monotone(24, (width(f) - 1) as nat);
        }
    } else {
        lemma_pow2_adds(24, e);
        lemma_pow2_adds(23, e);
        assert(pow2(23 + e) <= f < pow2(24 + e)) by (nonlinear_arith)
            requires
                m * pow2(e) <= f < (m + 1) * pow2(e),
                0x80_0000 <= m < 0x100_0000,
                pow2(24 + e) == 0x100_0000 * pow2(e),
                pow2(23 + e) == 0x80_0000 * pow2(e),
        ;
        lemma_width_is(f, 24 + e);
    }
}

/// The code nearest to a quotient that is known as `m` steps of two to the
/// power `e` and perhaps a part of a step more.
pub(crate) fn round(m: u128, e: i32, more: bool, Ghost(num): Ghost<nat>, Ghost(den): Ghost<nat>) -> (code:
    u32)
    requires
        den > 0,
        -900 <= e <= 900,
        more ==> m >= 0x100_0000,
        spans(m as nat, e as int, more, num, den),
    ensures
        code as nat == rounded(num, den),
{
    let mut m: u128 = m;
    let mut e: i32 = e;
    let mut half: bool = false;
    let mut more: bool = more;
    proof {
        lemma_pow2_pos((e + 1000) as nat);
        lemma_pow2_pos(1000);
        assert(pow2((e + 1000) as nat) * den > 0) by (nonlinear_arith)
            requires
                pow2((e + 1000) as nat) > 0,
                den > 0,
        ;
    }
    if m == 0 {
        proof {
            assert(num == 0) by (nonlinear_arith)
                requires
                    num * pow2(1000) == 0,
                    pow2(1000) > 0,
            ;
            lemma_pow2_pos(0);
            assert(den * pow2(0) > 0) by (nonlinear_arith)
                requires
                    den > 0,
                    pow2(0) > 0,
            ;
        }
        return 0;
    }
    if more {
        proof {
            let unit = pow2((e + 1000) as nat) * den;
            let unit2 = pow2((e + 1001) as nat) * den;
            let b = m as nat % 2;
            lemma_pow2_unfold((e + 1001) as nat);
            assert(unit2 == 2 * unit) by (nonlinear_arith)
                requires
                    unit2 == pow2((e + 1001) as nat) * den,
                    unit == pow2((e + 1000) as nat) * den,
                    pow2((e + 1001) as nat) == 2 * pow2((e + 1000) as nat),
            ;
            assert(m * unit == (m as nat / 2) * unit2 + b * unit && (m + 1) * unit == m * unit
                + unit) by (nonlinear_arith)
                requires
                    m == 2 * (m as nat / 2) + b,
                    unit2 == 2 * unit,
            ;
            assert(b == 0 ==> b * unit == 0);
            assert(b == 1 ==> b * unit == unit);
        }
        half = m % 2 == 1;
        m = m / 2;
        e = e + 1;
    }
    assert(cut(m as nat, e as int, half, more, num, den));
    assert(m * pow2((e + 1000) as nat) < pow2(2100)) by {
        lemma_pow2_adds(128, (e + 1000) as nat);
        lemma_pow2_monotone((128 + e + 1000) as nat, 2100);
        lemma2_to64_rest();
        lemma_pow2_adds(64, 64);
        assert(m * pow2((e + 1000) as nat) < pow2((128 + e + 1000) as nat)) by (nonlinear_arith)
            requires
                m < pow2(128),
                pow2((e + 1000) as nat) > 0,
                pow2((128 + e + 1000) as nat) == pow2(128) * pow2((e + 1000) as nat),
        ;
    }
    while e < 0 || m >= 0x100_0000
        invariant
            den > 0,
            -900 <= e,
            e <= 1100,
            m * pow2((e + 1000) as nat) < pow2(2100),
            half || more ==> m >= 0x80_0000 || e <= 0,
            cut(m as nat, e as int, half, more, num, den),
        decreases m + (if e < 0 { -e as int } else { 0int }),
    {
        proof {
            lemma_cut_halves(m as nat, e as int, half, more, num, den);
            lemma_pow2_unfold((e + 1001) as nat);
            let p = pow2((e + 1000) as nat);
            assert((m as nat / 2) * (2 * p) <= m * p) by (nonlinear_arith)
                requires
                    2 * (m as nat / 2) <= m,
                    p >= 0,
            ;
            if e >= 1076 {
                lemma2_to64();
                lemma_pow2_adds(24, (e + 1000) as nat);
                lemma_pow2_monotone(2100, (24 + e + 1000) as nat);
                assert(m * p >= 0x100_0000 * p) by (nonlinear_arith)
                    requires
                        m >= 0x100_0000,
                ;
            }
        }
        let bit: bool = m % 2 == 1;
        more = half || more;
        half = bit;
        m = m / 2;
        e = e + 1;
    }
    while m < 0x80_0000 && e > 0 && !half && !more
        invariant
            den > 0,
            0 <= e <= 1100,
            m < 0x100_0000,
            half || more ==> m >= 0x80_0000 || e == 0,
            cut(m as nat, e as int, half, more, num, den),
        decreases e,
    {
        proof {
            lemma_cut_doubles(m as nat, e as int, num, den);
        }
        m = m * 2;
        e = e - 1;
    }
    proof {
        lemma_cut_rounds(m as nat, e as nat, half, more, num, den);
    }
    let up: u64 = if half && (more || m % 2 == 1) {
        1
    } else {
        0
    };
    let code: u64 = e as u64 * STEP as u64 + m as u64 + up;
    if code < INFINITE as u64 {
        code as u32
    } else {
        INFINITE
    }
}

/// Zero rounds to zero.
pub proof fn lemma_rounded_zero()
    ensures
        rounded(0, 1) == 0,
{
    lemma2_to64();
}

/// The whole part of a quotient that is known as `m` steps of two to the power
/// `e`, as far as 64 bits hold it; whether the rest is at least a half; and
/// whether there is a rest.
pub(crate) fn whole_part(m: u128, e: i32, Ghost(num): Ghost<nat>, Ghost(den): Ghost<nat>) -> (r: (
    u64,
    bool,
    bool,
))
    requires
        den > 0,
        -900 <= e <= 900,
        spans(m as nat, e as int, false, num, den),
    ensures
        r.0 as nat == (if num / den < 0xffff_ffff_ffff_ffff {
            num / den
        } else {
            0xffff_ffff_ffff_ffff
        }),
        num / den <= 0xffff_ffff_ffff_ffff ==> {
            &&& r.1 <==> 2 * (num % den) >= den
            &&& r.2 <==> num % den > 0
        },
{
    let mut m: u128 = m;
    let mut e: i32 = e;
    let mut half: bool = false;
    let mut more: bool = false;
    proof {
        lemma2_to64();
        lemma_pow2_pos((e + 1000) as nat);
        assert(pow2((e + 1000) as nat) * den > 0) by (nonlinear_arith)
            requires
                pow2((e + 1000) as nat) > 0,
                den > 0,
        ;
    }
    while e < 0
        invariant
            den > 0,
            -900 <= e <= 900,
            cut(m as nat, e as int, half, more, num, den),
            e > 0 ==> !half && !more,
        decreases -e,
    {
        proof {
            lemma_cut_halves(m as nat, e as int, half, more, num, den);
        }
        let bit: bool = m % 2 == 1;
        more = half || more;
        half = bit;
        m = m / 2;
        e = e + 1;
    }
    while e > 0 && m <= 0xffff_ffff_ffff_ffff
        invariant
            den > 0,
            0 <= e <= 900,
            cut(m as nat, e as int, half, more, num, den),
            e > 0 ==> !half && !more,
        decreases e,
    {
        proof {
            lemma_cut_doubles(m as nat, e as int, num, den);
        }
        m = m * 2;
        e = e - 1;
    }
    proof {
        lemma_cut_divides(m as nat, e as nat, half, more, num, den);
        lemma_pow2_pos(e as nat);
        if e > 0 {
            let p = pow2(e as nat);
            let unit = den * p;
            lemma_fundamental_div_mod(num as int, unit as int);
            assert(num >= den * m) by (nonlinear_arith)
                requires
                    num == unit * m + num % unit,
                    num % unit >= 0,
                    unit == den * p,
                    p >= 1,
                    den > 0,
            ;
            lemma_div_is_ordered(den * m, num as int, den as int);
            lemma_div_multiples_vanish(m as int, den as int);
        } else {
            assert(den * pow2(0) == den) by (nonlinear_arith)
                requires
                    pow2(0) == 1,
            ;
        }
    }
    if m <= 0xffff_ffff_ffff_ffff {
        (m as u64, half, half || more)
    } else {
        (0xffff_ffff_ffff_ffff, false, false)
    }
}

/// An exact number of steps is twice that many steps of half the size.
proof fn lemma_cut_doubles(m: nat, e: int, num: nat, den: nat)
    requires
        cut(m, e, false, false, num, den),
        e > -1000,
        den > 0,
    ensures
        cut(2 * m, e - 1, false, false, num, den),
{
    let unit = pow2((e + 1000) as nat) * den;
    let unit2 = pow2((e - 1 + 1000) as nat) * den;
    lemma_pow2_unfold((e + 1000) as nat);
    lemma_pow2_pos((e - 1 + 1000) as nat);
    assert(unit == 2 * unit2 && unit2 > 0) by (nonlinear_arith)
        requires
            unit == pow2((e + 1000) as nat) * den,
            unit2 == pow2((e - 1 + 1000) as nat) * den,
            pow2((e + 1000) as nat) == 2 * pow2((e - 1 + 1000) as nat),
            pow2((e - 1 + 1000) as nat) > 0,
            den > 0,
    ;
    assert(m * unit == (2 * m) * unit2) by (nonlinear_arith)
        requires
            unit == 2 * unit2,
    ;
}

/// The leading 53 binary digits of `m`, rounded, and how many places they stand
/// above the last place of `m`.
pub(crate) fn keep53(m: u128) -> (r: (u128, u32))
    ensures
        r.0 as nat * pow2(r.1 as nat) == leading53(m as nat),
        r.0 <= 0x20_0000_0000_0000,
        r.1 <= 128,
{
    let ghost num = m as nat;
    let mut m: u128 = m;
    let mut e: i32 = 0;
    let mut half: bool = false;
    let mut more: bool = false;
    proof {
        lemma2_to64();
        lemma2_to64_rest();
        lemma_pow2_adds(64, 64);
        lemma_pow2_pos(1000);
        assert(m * pow2(0) == m) by (nonlinear_arith)
            requires
                pow2(0) == 1,
        ;
    }
    while m >= 0x20_0000_0000_0000
        invariant
            0 <= e <= 128,
            m * pow2(e as nat) < pow2(128),
            e == 0 || m >= 0x10_0000_0000_0000,
            cut(m as nat, e as int, half, more, num, 1),
        decreases m,
    {
        proof {
            lemma_cut_halves(m as nat, e as int, half, more, num, 1);
            lemma_pow2_unfold((e + 1) as nat);
            let p = pow2(e as nat);
            assert((m as nat / 2) * (2 * p) <= m * p) by (nonlinear_arith)
                requires
                    2 * (m as nat / 2) <= m,
                    p >= 0,
            ;
            if e == 128 {
                assert(m * p >= p) by (nonlinear_arith)
                    requires
                        m >= 1,
                        p >= 0,
                ;
            }
        }
        let bit: bool = m % 2 == 1;
        more = half || more;
        half = bit;
        m = m / 2;
        e = e + 1;
    }
    proof {
        lemma_cut_divides(m as nat, e as nat, half, more, num, 1);
        let unit = 1 * pow2(e as nat);
        lemma_fundamental_div_mod(num as int, unit as int);
        lemma_mod_bound(num as int, unit as int);
        lemma2_to64();
        if e == 0 {
            assert(num == m);
            lemma_width_bounds(num);
            if width(num) > 53 {
                lemma_pow2_monotone(53, (width(num) - 1) as nat);
            }
            assert(!half && !more);
            assert(m * pow2(0) == m) by (nonlinear_arith)
                requires
                    pow2(0) == 1,
            ;
        } else {
            lemma_pow2_adds(52, e as nat);
            lemma_pow2_adds(53, e as nat);
            let rest = num % unit;
            assert(pow2((52 + e) as nat) <= num < pow2((53 + e) as nat)) by (nonlinear_arith)
                requires
                    num == unit * m + rest,
                    0 <= rest < unit,
                    0x10_0000_0000_0000 <= m < 0x20_0000_0000_0000,
                    pow2((52 + e) as nat) == 0x10_0000_0000_0000 * unit,
                    pow2((53 + e) as nat) == 0x20_0000_0000_0000 * unit,
            ;
            lemma_width_is(num, (53 + e) as nat);
        }
    }
    let up: u128 = if half && (more || m % 2 == 1) {
        1
    } else {
        0
    };
    (m + up, e as u32)
}

/// Rounding to 53 digits commutes with a shift by whole places.
pub proof fn lemma_leading53_shifts(m: nat, q: nat)
    ensures
        leading53(m * pow2(q)) == leading53(m) * pow2(q),
{
    let p = pow2(q);
    let n = m * p;
    lemma_pow2_pos(q);
    lemma2_to64();
    if m == 0 {
        assert(n == 0 && leading53(0) * p == 0) by (nonlinear_arith)
            requires
                n == m * p,
                m == 0,
                leading53(0) == 0,
        ;
    } else {
        let w = width(m);
        lemma_width_bounds(m);
        lemma_pow2_adds(w, q);
        lemma_pow2_adds((w - 1) as nat, q);
        assert(pow2((w + q - 1) as nat) <= n < pow2(w + q)) by (nonlinear_arith)
            requires
                n == m * p,
                pow2((w - 1) as nat) <= m < pow2(w),
                pow2((w + q - 1) as nat) == pow2((w - 1) as nat) * p,
                pow2(w + q) == pow2(w) * p,
                p > 0,
        ;
        lemma_width_is(n, w + q);
        if w > 53 {
            let unit = pow2((w - 53) as nat);
            lemma_pow2_pos((w - 53) as nat);
            lemma_pow2_adds((w - 53) as nat, q);
            lemma_half_even_scales(m, unit, p);
            let h = half_even(m, unit);
            assert(h * (unit * p) == (h * unit) * p) by (nonlinear_arith);
        } else if w + q > 53 {
            let unit = pow2((w + q - 53) as nat);
            lemma_pow2_pos((w + q - 53) as nat);
            lemma_pow2_adds((53 - w) as nat, (w + q - 53) as nat);
            let t = m * pow2((53 - w) as nat);
            assert(n == unit * t) by (nonlinear_arith)
                requires
                    n == m * p,
                    p == pow2((53 - w) as nat) * unit,
                    t == m * pow2((53 - w) as nat),
            ;
            assert(unit * t == t * unit) by (nonlinear_arith);
            lemma_fundamental_div_mod_converse(n as int, unit as int, t as int, 0);
        }
    }
}

proof fn lemma_half_even_scales(num: nat, unit: nat, p: nat)
    requires
        unit > 0,
        p > 0,
    ensures
        half_even(num * p, unit * p) == half_even(num, unit),
{
    let q = num / unit;
    let r = num % unit;
    lemma_fundamental_div_mod(num as int, unit as int);
    lemma_mod_bound(num as int, unit as int);
    assert(num * p == q * (unit * p) + r * p && 0 <= r * p < unit * p && (2 * r < unit <==> 2 * (r
        * p) < unit * p) && (2 * r == unit <==> 2 * (r * p) == unit * p)) by (nonlinear_arith)
        requires
            num == unit * q + r,
            0 <= r < unit,
            p > 0,
    ;
    lemma_fundamental_div_mod_converse((num * p) as int, (unit * p) as int, q as int, (r * p) as int);
}

pub proof fn lemma_floor_root_is(n: nat, r: nat)
    requires
        is_floor_root(n, r),
    ensures
        floor_root(n) == r,
{
    let s = floor_root(n);
    assert(is_floor_root(n, s));
    assert(s == r) by (nonlinear_arith)
        requires
            s * s <= n < (s + 1) * (s + 1),
            r * r <= n < (r + 1) * (r + 1),
    ;
}

/// The whole part of the square root of `n`.
fn root_of(n: u128) -> (r: u64)
    requires
        n < 0x1000_0000_0000_0000_0000_0000,
    ensures
        is_floor_root(n as nat, r as nat),
{
    let mut low: u64 = 0;
    let mut high: u64 = 0x1_0000_0000_0000;
    while high - low > 1
        invariant
            low < high <= 0x1_0000_0000_0000,
            low * low <= n,
            n < high * high,
        decreases high - low,
    {
        let mid: u64 = low + (high - low) / 2;
        assert(mid * mid <= 0x1_0000_0000_0000 * 0x1_0000_0000_0000) by (nonlinear_arith)
            requires
                mid <= 0x1_0000_0000_0000,
        ;
        if mid as u128 * mid as u128 <= n {
            low = mid;
        } else {
            high = mid;
        }
    }
    low
}

/// The code nearest to the square root of `m * 2^t` units.
pub(crate) fn round_root(m: u32, t: u32) -> (code: u32)
    requires
        0 < m < 0x100_0000,
        149 <= t <= 402,
    ensures
        code as nat == rounded_root(m as nat * pow2(t as nat)),
        code < INFINITE,
{
    let ghost n = m as nat * pow2(t as nat);
    let odd: bool = t % 2 == 1;
    let half: u32 = t / 2;
    let wide: u128 = if odd {
        2 * m as u128
    } else {
        m as u128
    };
    // Sixty-four places more than the root needs, so that 32 digits come out.
    let scaled: u128 = wide * 0x1_0000_0000_0000_0000;
    let r: u64 = root_of(scaled);
    let e: i32 = half as i32 - 32;
    let exact: bool = r as u128 * r as u128 == scaled;
    proof {
        let p = pow2(e as nat);
        lemma_pow2_pos(e as nat);
        lemma_pow2_adds(e as nat, 1000);
        lemma2_to64();
        lemma2_to64_rest();
        lemma_pow2_adds(e as nat, e as nat);
        lemma_pow2_adds(64, (2 * e) as nat);
        assert(n == wide * pow2((2 * half) as nat)) by {
            if odd {
                lemma_pow2_unfold(t as nat);
                assert(m * (2 * pow2((2 * half) as nat)) == (2 * m) * pow2((2 * half) as nat))
                    by (nonlinear_arith);
            }
        }
        assert(n == scaled * (p * p)) by (nonlinear_arith)
            requires
                n == wide * pow2((2 * half) as nat),
                pow2((2 * half) as nat) == 0x1_0000_0000_0000_0000 * (p * p),
                scaled == wide * 0x1_0000_0000_0000_0000,
        ;
        assert(r >= 0x1_0000_0000) by (nonlinear_arith)
            requires
                (r + 1) * (r + 1) > 0x1_0000_0000_0000_0000,
                r >= 0,
        ;
        assert(r < 0x1_0000_0000_0000) by (nonlinear_arith)
            requires
                r * r < 0x1000_0000_0000_0000_0000_0000,
                r >= 0,
        ;
        let s = r * p;
        let s1 = (r + 1) * p;
        assert(s * s == (r * r) * (p * p) && s1 * s1 == ((r + 1) * (r + 1)) * (p * p))
            by (nonlinear_arith)
            requires
                s == r * p,
                s1 == (r + 1) * p,
        ;
        let rr = r * r;
        let rr1 = (r + 1) * (r + 1);
        assert(rr * (p * p) <= n < rr1 * (p * p) && (rr == scaled <==> rr * (p * p) == n))
            by (nonlinear_arith)
            requires
                n == scaled * (p * p),
                rr <= scaled < rr1,
                p > 0,
        ;
        lemma_root_rounds(n, r as nat, e as nat, exact);
        let u = pow2((e + 1000) as nat);
        assert(u * 1 == u);
        if exact {
            assert((r * p) * pow2(1000) == r * (u * 1)) by (nonlinear_arith)
                requires
                    u == p * pow2(1000),
            ;
        } else {
            assert(((2 * r + 1) * p) * pow2(1000) == r * (u * 2) + u && (r + 1) * (u * 2) == r * (u
                * 2) + u * 2) by (nonlinear_arith)
                requires
                    u == p * pow2(1000),
            ;
            lemma_pow2_pos((e + 1000) as nat);
        }
    }
    if exact {
        round(r as u128, e, false, Ghost(r as nat * pow2(e as nat)), Ghost(1))
    } else {
        round(r as u128, e, true, Ghost((2 * r + 1) as nat * pow2(e as nat)), Ghost(2))
    }
}

/// A root that lies between `r` and `r + 1` steps rounds as the middle of the
/// two does, and one that is `r` steps rounds as these do.
proof fn lemma_root_rounds(n: nat, r: nat, e: nat, exact: bool)
    requires
        (r * pow2(e)) * (r * pow2(e)) <= n < ((r + 1) * pow2(e)) * ((r + 1) * pow2(e)),
        exact <==> n == (r * pow2(e)) * (r * pow2(e)),
        0x1_0000_0000 <= r < 0x1_0000_0000_0000,
        0 < e <= 180,
    ensures
        rounded_root(n) < INFINITE,
        exact ==> rounded_root(n) == rounded(r * pow2(e), 1),
        !exact ==> rounded_root(n) == rounded((2 * r + 1) * pow2(e), 2),
{
    let p = pow2(e);
    let f = floor_root(n);
    let w = width(r);
    lemma_pow2_pos(e);
    lemma_floor_root_between(n, r * p, (r + 1) * p);
    lemma_width_bounds(r);
    lemma2_to64();
    lemma2_to64_rest();
    if w < 33 {
        lemma_pow2_monotone(w, 32);
    }
    if w > 48 {
        lemma_pow2_monotone(48, (w - 1) as nat);
    }
    let s = (w - 24) as nat;
    let k = (s + e) as nat;
    let ps = pow2(s);
    lemma_pow2_pos(s);
    lemma_pow2_pos(k);
    lemma_pow2_adds(s, e);
    lemma_pow2_adds(24, s);
    lemma_pow2_unfold(s);
    let num = if exact {
        r * p
    } else {
        (2 * r + 1) * p
    };
    let den: nat = if exact {
        1
    } else {
        2
    };
    let g = num / den;
    assert(r * p <= g < (r + 1) * p) by {
        lemma_fundamental_div_mod(num as int, den as int);
        assert((2 * r + 1) * p == 2 * (r * p) + p && (r + 1) * p == r * p + p) by (nonlinear_arith);
    }
    lemma_width_of_steps(f, r, e);
    lemma_width_of_steps(g, r, e);
    let q = r / ps;
    lemma_steps_divide(f, r, s, e);
    lemma_fundamental_div_mod(r as int, ps as int);
    lemma_mod_bound(r as int, ps as int);
    let ro = r % ps;
    let unit = den * pow2(k);
    assert(unit > 0 && unit == den * (ps * p)) by (nonlinear_arith)
        requires
            unit == den * pow2(k),
            pow2(k) == ps * p,
            den > 0,
            pow2(k) > 0,
    ;
    let rest = num - q * unit;
    let hp = pow2((s - 1) as nat);
    // Twice the distance to the middle, in steps of the surrogate.
    let t = (2 * q + 1) * hp;
    assert(num / unit == q && num % unit == rest && (2 * rest < unit <==> num < den * (t * p)) && (2
        * rest == unit <==> num == den * (t * p))) by {
        if exact {
            assert(rest == ro * p && 0 <= ro * p < ps * p) by (nonlinear_arith)
                requires
                    rest == r * p - q * (1 * (ps * p)),
                    r == ps * q + ro,
                    0 <= ro < ps,
                    p > 0,
            ;
        } else {
            assert(rest == (2 * ro + 1) * p && 0 <= (2 * ro + 1) * p < 2 * (ps * p))
                by (nonlinear_arith)
                requires
                    rest == (2 * r + 1) * p - q * (2 * (ps * p)),
                    r == ps * q + ro,
                    0 <= ro < ps,
                    p > 0,
            ;
        }
        lemma_fundamental_div_mod_converse(num as int, unit as int, q as int, rest);
        assert(q * unit + q * unit + unit == 2 * (den * (t * p))) by (nonlinear_arith)
            requires
                unit == den * (ps * p),
                ps == 2 * hp,
                t == (2 * q + 1) * hp,
        ;
    }
    let middle = (2 * q + 1) * pow2(k);
    let c = t * p;
    assert(middle == 2 * c) by (nonlinear_arith)
        requires
            middle == (2 * q + 1) * pow2(k),
            pow2(k) == ps * p,
            ps == 2 * hp,
            t == (2 * q + 1) * hp,
            c == t * p,
    ;
    assert(middle * middle == 4 * (c * c)) by (nonlinear_arith)
        requires
            middle == 2 * c,
    ;
    let a = r * p;
    let b = (r + 1) * p;
    if r >= t {
        assert(a >= c && a * a >= c * c && (r > t ==> a > c && a * a > c * c)) by (nonlinear_arith)
            requires
                a == r * p,
                c == t * p,
                r >= t,
                p > 0,
                t >= 0,
        ;
        assert((2 * r + 1) * p > 2 * (t * p)) by (nonlinear_arith)
            requires
                r >= t,
                p > 0,
        ;
    } else {
        assert(b <= c && b * b <= c * c && a < c && a * a < c * c) by (nonlinear_arith)
            requires
                a == r * p,
                b == (r + 1) * p,
                c == t * p,
                r + 1 <= t,
                p > 0,
                r >= 0,
        ;
        assert((2 * r + 1) * p < 2 * (t * p)) by (nonlinear_arith)
            requires
                r + 1 <= t,
                p > 0,
        ;
    }
    assert(q <= 0x100_0000) by (nonlinear_arith)
        requires
            r == ps * q + ro,
            ro >= 0,
            r < 0x100_0000 * ps,
    ;
}

/// A whole root lies between two numbers where its square does.
pub proof fn lemma_floor_root_between(n: nat, a: nat, b: nat)
    requires
        a * a <= n < b * b,
    ensures
        is_floor_root(n, floor_root(n)),
        a <= floor_root(n) < b,
    decreases b - a,
{
    assert(a < b) by (nonlinear_arith)
        requires
            a * a < b * b,
            a >= 0,
            b >= 0,
    ;
    if b == a + 1 {
        lemma_floor_root_is(n, a);
    } else {
        let mid = a + 1;
        if mid * mid <= n {
            lemma_floor_root_between(n, mid, b);
        } else {
            lemma_floor_root_between(n, a, mid);
        }
    }
}

/// A number between `r` and `r + 1` steps of two to the power `e` has as many
/// digits as `r`, and `e` more.
proof fn lemma_width_of_steps(f: nat, r: nat, e: nat)
    requires
        r > 0,
        r * pow2(e) <= f < (r + 1) * pow2(e),
    ensures
        width(f) == width(r) + e,
{
    let w = width(r);
    let p = pow2(e);
    lemma_width_bounds(r);
    lemma_pow2_pos(e);
    lemma_pow2_adds(w, e);
    lemma_pow2_adds((w - 1) as nat, e);
    assert(pow2((w + e - 1) as nat) <= f < pow2(w + e)) by (nonlinear_arith)
        requires
            r * p <= f < (r + 1) * p,
            pow2((w - 1) as nat) <= r < pow2(w),
            pow2((w + e - 1) as nat) == pow2((w - 1) as nat) * p,
            pow2(w + e) == pow2(w) * p,
            p > 0,
    ;
    lemma_width_is(f, w + e);
}

proof fn lemma_steps_divide(f: nat, r: nat, s: nat, e: nat)
    requires
        r * pow2(e) <= f < (r + 1) * pow2(e),
    ensures
        f / pow2(s + e) == r / pow2(s),
{
    let p = pow2(e);
    let ps = pow2(s);
    lemma_pow2_pos(e);
    lemma_pow2_pos(s);
    lemma_pow2_adds(s, e);
    assert((r + 1) * p == r * p + p) by (nonlinear_arith);
    lemma_fundamental_div_mod_converse(f as int, p as int, r as int, f - r * p);
    lemma_div_denominator(f as int, p as int, ps as int);
    assert(p * ps == ps * p) by (nonlinear_arith);
}

/// What is below half a unit rounds to zero.
pub proof fn lemma_rounded_vanishes(num: nat, den: nat)
    requires
        2 * num < den,
    ensures
        rounded(num, den) == 0,
{
    lemma2_to64();
    lemma_fundamental_div_mod_converse(num as int, den as int, 0, num as int);
    assert(den * pow2(0) == den) by (nonlinear_arith)
        requires
            pow2(0) == 1,
    ;
}

/// What is far above the largest magnitude rounds to infinity.
pub proof fn lemma_rounded_infinite(num: nat, den: nat)
    requires
        den > 0,
        num >= den * pow2(364),
    ensures
        rounded(num, den) == INFINITE,
{
    let f = num / den;
    lemma_div_is_ordered((den * pow2(364)) as int, num as int, den as int);
    lemma_div_multiples_vanish(pow2(364) as int, den as int);
    lemma_width_bounds(f);
    lemma_pow2_pos(364);
    if width(f) < 364 {
        lemma_pow2_monotone(width(f), 364);
    }
}

}

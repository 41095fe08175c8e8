//! IEEE 754 binary32 numbers and their arithmetic, on the encodings.
//!
//! Every operation returns the binary32 number nearest to the exact result, and is
//! proved against that statement.
use vstd::arithmetic::div_mod::*;
use vstd::arithmetic::mul::*;
use vstd::arithmetic::power2::*;
use vstd::prelude::*;

use crate::rounding;
use crate::rounding::{INFINITE, STEP};

verus! {

/// The sign bit of an encoding.
pub const SIGN: u32 = 0x8000_0000;

/// The encoding of the quiet not-a-number that operations return.
pub const QUIET: u32 = 0x7fc0_0000;

/// A binary32 number, held by its encoding. `==` compares encodings, so that a
/// not-a-number equals itself and the two zeros differ; `is_below` and
/// `is_at_most` compare the numbers.
#[derive(Clone, Copy, Debug, PartialEq, Eq, Structural)]
pub struct Binary32 {
    pub bits: u32,
}

/// The number with the magnitude `code` and the given sign.
pub open spec fn signed(negative: bool, code: nat) -> Binary32 {
    Binary32 {
        bits: if negative {
            (SIGN as nat + code) as u32
        } else {
            code as u32
        },
    }
}

/// The not-a-number that operations return.
pub open spec fn not_a_number() -> Binary32 {
    Binary32 { bits: QUIET }
}

/// The number nearest to `num / den`.
pub open spec fn nearest(num: nat, den: nat) -> Binary32 {
    signed(false, rounding::rounded(num * pow2(149), den))
}

impl Binary32 {
    /// The encoding without the sign bit.
    pub open spec fn code(self) -> nat {
        if self.bits < SIGN {
            self.bits as nat
        } else {
            (self.bits - SIGN) as nat
        }
    }

    pub open spec fn negative(self) -> bool {
        self.bits >= SIGN
    }

    pub open spec fn nan(self) -> bool {
        self.code() > INFINITE
    }

    pub open spec fn infinite(self) -> bool {
        self.code() == INFINITE
    }

    pub open spec fn finite(self) -> bool {
        self.code() < INFINITE
    }

    /// The magnitude, in units of two to the power -149.
    pub open spec fn units(self) -> nat {
        rounding::units(self.code())
    }

    /// The number in units, with its sign: the order of all numbers but the
    /// not-a-numbers, infinities included.
    pub open spec fn value(self) -> int {
        if self.negative() {
            -(self.units() as int)
        } else {
            self.units() as int
        }
    }

    pub open spec fn negated(self) -> Binary32 {
        signed(!self.negative(), self.code())
    }

    pub open spec fn spec_add(self, rhs: Binary32) -> Binary32 {
        if self.nan() || rhs.nan() {
            not_a_number()
        } else if self.infinite() {
            if rhs.infinite() && self.negative() != rhs.negative() {
                not_a_number()
            } else {
                self
            }
        } else if rhs.infinite() {
            rhs
        } else {
            let sum = self.value() + rhs.value();
            if sum > 0 {
                signed(false, rounding::rounded(sum as nat, 1))
            } else if sum < 0 {
                signed(true, rounding::rounded((-sum) as nat, 1))
            } else {
                signed(self.negative() && rhs.negative(), 0)
            }
        }
    }

    pub open spec fn spec_sub(self, rhs: Binary32) -> Binary32 {
        self.spec_add(rhs.negated())
    }

    pub open spec fn spec_mul(self, rhs: Binary32) -> Binary32 {
        let negative = self.negative() != rhs.negative();
        if self.nan() || rhs.nan() {
            not_a_number()
        } else if self.infinite() || rhs.infinite() {
            if self.code() == 0 || rhs.code() == 0 {
                not_a_number()
            } else {
                signed(negative, INFINITE as nat)
            }
        } else {
            signed(negative, rounding::rounded(self.units() * rhs.units(), pow2(149)))
        }
    }

    pub open spec fn spec_euclidean_or_real_div(self, rhs: Binary32) -> Binary32 {
        let negative = self.negative() != rhs.negative();
        if self.nan() || rhs.nan() {
            not_a_number()
        } else if self.infinite() {
            if rhs.infinite() {
                not_a_number()
            } else {
                signed(negative, INFINITE as nat)
            }
        } else if rhs.infinite() {
            signed(negative, 0)
        } else if rhs.code() == 0 {
            if self.code() == 0 {
                not_a_number()
            } else {
                signed(negative, INFINITE as nat)
            }
        } else {
            signed(negative, rounding::rounded(self.units() * pow2(149), rhs.units()))
        }
    }

    /// The square root.
    pub open spec fn root(self) -> Binary32 {
        if self.nan() || (self.negative() && self.code() > 0) {
            not_a_number()
        } else if self.infinite() || self.code() == 0 {
            self
        } else {
            signed(false, rounding::rounded_root(self.units() * pow2(149)))
        }
    }

    /// The remainder of the division by four, with the sign of the number.
    pub open spec fn past_fours(self) -> Binary32 {
        if self.nan() || self.infinite() {
            not_a_number()
        } else {
            signed(self.negative(), rounding::rounded(self.units() % pow2(151), 1))
        }
    }

    /// The whole part of a number above zero; zero for all else.
    pub open spec fn whole(self) -> nat {
        if self.nan() || self.negative() {
            0
        } else {
            self.units() / pow2(149)
        }
    }

    /// The whole number nearest to a number above zero, half way upwards; zero
    /// for all else.
    pub open spec fn nearest_whole(self) -> nat {
        if self.nan() || self.negative() {
            0
        } else {
            (2 * self.units() + pow2(149)) as nat / (2 * pow2(149))
        }
    }

    /// The least whole number that is not below a number above zero; zero for
    /// all else.
    pub open spec fn next_whole(self) -> nat {
        if self.nan() || self.negative() {
            0
        } else {
            (self.units() + pow2(149) - 1) as nat / pow2(149)
        }
    }

    /// Whether the number is below `rhs`; never so of a not-a-number.
    pub open spec fn below(self, rhs: Binary32) -> bool {
        !self.nan() && !rhs.nan() && self.value() < rhs.value()
    }

    /// Whether the number is `rhs` or below it; never so of a not-a-number.
    pub open spec fn at_most(self, rhs: Binary32) -> bool {
        !self.nan() && !rhs.nan() && self.value() <= rhs.value()
    }

    /// The larger of two numbers, or the one that is a number.
    pub open spec fn larger(self, rhs: Binary32) -> Binary32 {
        if self.nan() || self.below(rhs) {
            rhs
        } else {
            self
        }
    }

    /// The smaller of two numbers, or the one that is a number.
    pub open spec fn smaller(self, rhs: Binary32) -> Binary32 {
        if self.nan() || rhs.below(self) {
            rhs
        } else {
            self
        }
    }
}

/// Two to the power `d`.
fn power_of_two(d: u32) -> (p: u128)
    requires
        d <= 127,
    ensures
        p == pow2(d as nat),
{
    let mut p: u128 = 1;
    let mut i: u32 = 0;
    proof {
        lemma2_to64();
    }
    while i < d
        invariant
            i <= d <= 127,
            p == pow2(i as nat),
        decreases d - i,
    {
        proof {
            lemma_pow2_unfold((i + 1) as nat);
            lemma2_to64_rest();
            lemma_pow2_adds(63, 64);
            rounding::lemma_pow2_monotone((i + 1) as nat, 127);
        }
        p = p * 2;
        i = i + 1;
    }
    p
}

/// The significand and the exponent of a finite magnitude.
fn parts(code: u32) -> (r: (u32, u32))
    requires
        code < INFINITE,
    ensures
        rounding::units(code as nat) == r.0 as nat * pow2(r.1 as nat),
        r.0 < 0x100_0000,
        r.1 <= 253,
        r.1 > 0 ==> r.0 >= STEP,
        r.0 == 0 <==> code == 0,
        r.1 as nat == (if code < STEP {
            0nat
        } else {
            (code / STEP - 1) as nat
        }),
{
    if code < STEP {
        proof {
            lemma2_to64();
            assert(code as nat * pow2(0) == code as nat) by (nonlinear_arith)
                requires
                    pow2(0) == 1,
            ;
        }
        (code, 0)
    } else {
        (STEP + code % STEP, code / STEP - 1)
    }
}

/// The code nearest to the sum of two finite magnitudes.
fn sum_code(a: u32, b: u32) -> (code: u32)
    requires
        b <= a < INFINITE,
    ensures
        code as nat == rounding::rounded(
            rounding::units(a as nat) + rounding::units(b as nat),
            1,
        ),
{
    let (m1, q1): (u32, u32) = parts(a);
    let (m2, q2): (u32, u32) = parts(b);
    let d: u32 = q1 - q2;
    let ghost num = rounding::units(a as nat) + rounding::units(b as nat);
    proof {
        lemma_pow2_adds(d as nat, q2 as nat);
        lemma_pow2_adds(q2 as nat, 1000);
    }
    if d <= 100 {
        let p: u128 = power_of_two(d);
        proof {
            lemma_shift_fits(m1 as nat, d as nat);
        }
        let m: u128 = m1 as u128 * p + m2 as u128;
        proof {
            let x = pow2(q2 as nat);
            let y = pow2(1000);
            assert(m1 * pow2(q1 as nat) + m2 * x == m * x) by (nonlinear_arith)
                requires
                    pow2(q1 as nat) == p * x,
                    m == m1 * p + m2,
            ;
            assert(num * y == m * ((x * y) * 1)) by (nonlinear_arith)
                requires
                    num == m * x,
            ;
        }
        rounding::round(m, q2 as i32, false, Ghost(num), Ghost(1))
    } else {
        let p: u128 = power_of_two(64);
        proof {
            lemma_shift_fits(m1 as nat, 64);
            lemma2_to64_rest();
        }
        let m: u128 = m1 as u128 * p;
        proof {
            lemma_far_apart(m1 as nat, q1 as nat, m2 as nat, q2 as nat);
            let x = m1 * pow2(q1 as nat);
            let y = m2 * pow2(q2 as nat);
            let u = pow2((q1 - 64 + 1000) as nat) * 1;
            assert((x + y) * pow2(1000) == x * pow2(1000) + y * pow2(1000) && (m + 1) * u == m * u
                + u) by (nonlinear_arith);
        }
        rounding::round(m, q1 as i32 - 64, m2 != 0, Ghost(num), Ghost(1))
    }
}

/// A magnitude more than a hundred binary places below another is less than two
/// to the power -64 of the other's last place.
proof fn lemma_far_apart(m1: nat, q1: nat, m2: nat, q2: nat)
    requires
        m1 < 0x100_0000,
        m2 < 0x100_0000,
        q2 + 100 < q1,
    ensures
        (m1 * pow2(64)) * (pow2((q1 - 64 + 1000) as nat) * 1) == (m1 * pow2(q1)) * pow2(1000),
        m2 == 0 ==> m2 * pow2(q2) == 0,
        m2 > 0 ==> 0 < (m2 * pow2(q2)) * pow2(1000) < pow2((q1 - 64 + 1000) as nat) * 1,
{
    let u = pow2((q1 - 64 + 1000) as nat);
    lemma_pow2_adds(64, (q1 - 64 + 1000) as nat);
    lemma_pow2_adds(q1, 1000);
    assert((m1 * pow2(64)) * (u * 1) == (m1 * pow2(q1)) * pow2(1000)) by (nonlinear_arith)
        requires
            pow2(64) * u == pow2(q1) * pow2(1000),
    ;
    if m2 > 0 {
        lemma2_to64();
        lemma_pow2_adds(q2, 1000);
        lemma_pow2_adds(24, q2 + 1000);
        rounding::lemma_pow2_monotone(24 + q2 + 1000, (q1 - 64 + 1000) as nat);
        lemma_pow2_pos(q2 + 1000);
        let t = pow2(q2 + 1000);
        assert((m2 * pow2(q2)) * pow2(1000) == m2 * t) by (nonlinear_arith)
            requires
                t == pow2(q2) * pow2(1000),
        ;
        assert(0 < m2 * t < 0x100_0000 * t) by (nonlinear_arith)
            requires
                0 < m2 < 0x100_0000,
                t > 0,
        ;
    }
}

proof fn lemma_shift_fits(m: nat, d: nat)
    requires
        m < 0x100_0000,
        d <= 100,
    ensures
        m * pow2(d) + 0x100_0000 <= 0x1_0000_0000_0000_0000_0000_0000_0000_0000,
        m >= 1 ==> m * pow2(d) >= pow2(d),
{
    lemma2_to64();
    lemma2_to64_rest();
    lemma_pow2_adds(36, 64);
    rounding::lemma_pow2_monotone(d, 100);
    assert(m * pow2(d) <= 0x100_0000 * pow2(100)) by (nonlinear_arith)
        requires
            m < 0x100_0000,
            pow2(d) <= pow2(100),
    ;
    assert(m >= 1 ==> m * pow2(d) >= pow2(d)) by (nonlinear_arith);
}

/// The code nearest to the difference of two finite magnitudes.
fn difference_code(a: u32, b: u32) -> (code: u32)
    requires
        b < a < INFINITE,
    ensures
        rounding::units(b as nat) < rounding::units(a as nat),
        code as nat == rounding::rounded(
            (rounding::units(a as nat) - rounding::units(b as nat)) as nat,
            1,
        ),
{
    let (m1, q1): (u32, u32) = parts(a);
    let (m2, q2): (u32, u32) = parts(b);
    let d: u32 = q1 - q2;
    proof {
        lemma_units_grow(b as nat, a as nat);
        lemma_pow2_adds(d as nat, q2 as nat);
        lemma_pow2_adds(q2 as nat, 1000);
    }
    let ghost num = (rounding::units(a as nat) - rounding::units(b as nat)) as nat;
    if d <= 100 {
        let p: u128 = power_of_two(d);
        proof {
            lemma_shift_fits(m1 as nat, d as nat);
            let x = pow2(q2 as nat);
            assert(m1 * p > m2) by (nonlinear_arith)
                requires
                    m1 * pow2(q1 as nat) > m2 * x,
                    pow2(q1 as nat) == p * x,
                    x >= 0,
            ;
        }
        let m: u128 = m1 as u128 * p - m2 as u128;
        proof {
            let x = pow2(q2 as nat);
            let y = pow2(1000);
            assert(m1 * pow2(q1 as nat) - m2 * x == m * x) by (nonlinear_arith)
                requires
                    pow2(q1 as nat) == p * x,
                    m == m1 * p - m2,
            ;
            assert(num * y == m * ((x * y) * 1)) by (nonlinear_arith)
                requires
                    num == m * x,
            ;
        }
        rounding::round(m, q2 as i32, false, Ghost(num), Ghost(1))
    } else {
        let p: u128 = power_of_two(64);
        proof {
            lemma_shift_fits(m1 as nat, 64);
            lemma2_to64_rest();
            lemma_far_apart(m1 as nat, q1 as nat, m2 as nat, q2 as nat);
        }
        let m: u128 = m1 as u128 * p;
        proof {
            let x = m1 * pow2(q1 as nat);
            let y = m2 * pow2(q2 as nat);
            let u = pow2((q1 - 64 + 1000) as nat) * 1;
            assert((x - y) * pow2(1000) == x * pow2(1000) - y * pow2(1000) && (m - 1) * u == m * u
                - u) by (nonlinear_arith);
        }
        if m2 == 0 {
            rounding::round(m, q1 as i32 - 64, false, Ghost(num), Ghost(1))
        } else {
            rounding::round(m - 1, q1 as i32 - 64, true, Ghost(num), Ghost(1))
        }
    }
}

/// A larger code stands for a larger magnitude.
pub proof fn lemma_units_grow(a: nat, b: nat)
    requires
        a < b,
    ensures
        rounding::units(a) < rounding::units(b),
{
    let step = STEP as nat;
    if b >= step {
        let kb = (b / step - 1) as nat;
        lemma_pow2_pos(kb);
        let rb = b % step;
        if a < step {
            assert((step + rb) * pow2(kb) >= step) by (nonlinear_arith)
                requires
                    pow2(kb) >= 1,
            ;
        } else {
            let ka = (a / step - 1) as nat;
            let ra = a % step;
            lemma_pow2_pos(ka);
            if ka < kb {
                rounding::lemma_pow2_monotone(ka + 1, kb);
                lemma_pow2_unfold(ka + 1);
                assert((step + ra) * pow2(ka) < (step + rb) * pow2(kb)) by (nonlinear_arith)
                    requires
                        ra < step,
                        pow2(kb) >= 2 * pow2(ka),
                        pow2(ka) > 0,
                ;
            } else {
                assert(ka == kb && ra < rb);
                assert((step + ra) * pow2(ka) < (step + rb) * pow2(ka)) by (nonlinear_arith)
                    requires
                        ra < rb,
                        pow2(ka) > 0,
                ;
            }
        }
    }
}

/// The code nearest to the product of two finite magnitudes.
fn product_code(a: u32, b: u32) -> (code: u32)
    requires
        a < INFINITE,
        b < INFINITE,
    ensures
        code as nat == rounding::rounded(
            rounding::units(a as nat) * rounding::units(b as nat),
            pow2(149),
        ),
{
    let (m1, q1): (u32, u32) = parts(a);
    let (m2, q2): (u32, u32) = parts(b);
    assert(m1 as nat * m2 as nat <= 0x100_0000 * 0x100_0000) by (nonlinear_arith)
        requires
            m1 < 0x100_0000,
            m2 < 0x100_0000,
    ;
    let m: u128 = m1 as u128 * m2 as u128;
    let e: i32 = q1 as i32 + q2 as i32 - 149;
    let ghost num = rounding::units(a as nat) * rounding::units(b as nat);
    proof {
        lemma_pow2_pos(149);
        lemma_pow2_adds(q1 as nat, q2 as nat);
        lemma_pow2_adds((q1 + q2) as nat, 1000);
        lemma_pow2_adds((e + 1000) as nat, 149);
        let x = pow2(q1 as nat);
        let y = pow2(q2 as nat);
        let u = pow2((e + 1000) as nat);
        assert(((m1 * x) * (m2 * y)) * pow2(1000) == (m1 * m2) * (u * pow2(149)))
            by (nonlinear_arith)
            requires
                (x * y) * pow2(1000) == u * pow2(149),
        ;
    }
    rounding::round(m, e, false, Ghost(num), Ghost(pow2(149)))
}

/// The code nearest to the quotient of two finite magnitudes.
fn quotient_code(a: u32, b: u32) -> (code: u32)
    requires
        a < INFINITE,
        0 < b < INFINITE,
    ensures
        code as nat == rounding::rounded(
            rounding::units(a as nat) * pow2(149),
            rounding::units(b as nat),
        ),
{
    let (m1, q1): (u32, u32) = parts(a);
    let (m2, q2): (u32, u32) = parts(b);
    let p: u128 = power_of_two(64);
    proof {
        lemma_shift_fits(m1 as nat, 64);
        lemma2_to64_rest();
    }
    let top: u128 = m1 as u128 * p;
    let m: u128 = top / m2 as u128;
    let r: u128 = top % m2 as u128;
    let e: i32 = q1 as i32 - q2 as i32 + 85;
    let ghost num = rounding::units(a as nat) * pow2(149);
    let ghost den = rounding::units(b as nat);
    proof {
        lemma_pow2_pos(q2 as nat);
        lemma_pow2_pos((q1 + 1085) as nat);
        lemma_pow2_adds(q1 as nat, 149);
        lemma_pow2_adds((q1 + 149) as nat, 1000);
        lemma_pow2_adds(64, (q1 + 1085) as nat);
        lemma_pow2_adds((e + 1000) as nat, q2 as nat);
        let x = pow2(q1 as nat);
        let y = pow2(q2 as nat);
        let u = pow2((e + 1000) as nat);
        let t = pow2((q1 + 1085) as nat);
        lemma_fundamental_div_mod(top as int, m2 as int);
        assert(den > 0) by (nonlinear_arith)
            requires
                den == m2 * y,
                m2 > 0,
                y > 0,
        ;
        assert(u * den == m2 * t) by (nonlinear_arith)
            requires
                den == m2 * y,
                u * y == t,
        ;
        assert(((m1 * x) * pow2(149)) * pow2(1000) == top * t) by (nonlinear_arith)
            requires
                (x * pow2(149)) * pow2(1000) == p * t,
                top == m1 * p,
        ;
        assert(top * t == m * (m2 * t) + r * t) by (nonlinear_arith)
            requires
                top == m2 * m + r,
        ;
        assert((m + 1) * (m2 * t) == m * (m2 * t) + m2 * t) by (nonlinear_arith);
        assert(r * t < m2 * t && (r > 0 ==> r * t > 0) && (r == 0 ==> r * t == 0))
            by (nonlinear_arith)
            requires
                0 <= r < m2,
                t > 0,
        ;
        if m1 > 0 {
            assert(m >= 0x100_0000) by (nonlinear_arith)
                requires
                    top == m2 * m + r,
                    r < m2,
                    m2 < 0x100_0000,
                    top >= 0x1_0000_0000_0000_0000,
            ;
        }
    }
    rounding::round(m, e, r != 0, Ghost(num), Ghost(den))
}

impl Binary32 {
    /// Whether the value is no number.
    pub fn is_nan(self) -> (r: bool)
        ensures
            r == self.nan(),
    {
        self.magnitude() > INFINITE
    }

    fn magnitude(self) -> (code: u32)
        ensures
            code as nat == self.code(),
    {
        if self.bits < SIGN {
            self.bits
        } else {
            self.bits - SIGN
        }
    }

    fn is_negative(self) -> (r: bool)
        ensures
            r == self.negative(),
    {
        self.bits >= SIGN
    }

    pub(crate) fn with_sign(negative: bool, code: u32) -> (r: Binary32)
        requires
            code <= INFINITE,
        ensures
            r == signed(negative, code as nat),
    {
        Binary32 {
            bits: if negative {
                SIGN + code
            } else {
                code
            },
        }
    }

    /// The number with the other sign.
    pub fn opposite(self) -> (r: Binary32)
        ensures
            r == self.negated(),
    {
        Binary32 {
            bits: if self.bits < SIGN {
                SIGN + self.bits
            } else {
                self.bits - SIGN
            },
        }
    }

    /// Whether the number is below `rhs`.
    pub fn is_below(self, rhs: Binary32) -> (r: bool)
        ensures
            r == self.below(rhs),
    {
        if self.is_nan() || rhs.is_nan() {
            return false;
        }
        let a: u32 = self.magnitude();
        let b: u32 = rhs.magnitude();
        proof {
            lemma_units_order(a as nat, b as nat);
        }
        if self.is_negative() {
            if rhs.is_negative() {
                b < a
            } else {
                a > 0 || b > 0
            }
        } else {
            !rhs.is_negative() && a < b
        }
    }

    /// Whether the number is `rhs` or below it.
    pub fn is_at_most(self, rhs: Binary32) -> (r: bool)
        ensures
            r == self.at_most(rhs),
    {
        !self.is_nan() && !rhs.is_nan() && !rhs.is_below(self)
    }

    /// The larger of two numbers, or the one that is a number.
    pub fn max(self, rhs: Binary32) -> (r: Binary32)
        ensures
            r == self.larger(rhs),
    {
        if self.is_nan() || self.is_below(rhs) {
            rhs
        } else {
            self
        }
    }

    /// The smaller of two numbers, or the one that is a number.
    pub fn min(self, rhs: Binary32) -> (r: Binary32)
        ensures
            r == self.smaller(rhs),
    {
        if self.is_nan() || rhs.is_below(self) {
            rhs
        } else {
            self
        }
    }
}

/// Codes are ordered as the magnitudes that they stand for.
pub proof fn lemma_units_order(a: nat, b: nat)
    ensures
        a < b <==> rounding::units(a) < rounding::units(b),
        a == b <==> rounding::units(a) == rounding::units(b),
        a == 0 <==> rounding::units(a) == 0,
        b == 0 <==> rounding::units(b) == 0,
{
    if a < b {
        lemma_units_grow(a, b);
    }
    if b < a {
        lemma_units_grow(b, a);
    }
    if a > 0 {
        lemma_units_grow(0, a);
    }
    if b > 0 {
        lemma_units_grow(0, b);
    }
}

impl vstd::std_specs::ops::AddSpecImpl for Binary32 {
    open spec fn obeys_add_spec() -> bool {
        true
    }

    open spec fn add_req(self, rhs: Binary32) -> bool {
        true
    }

    open spec fn add_spec(self, rhs: Binary32) -> Binary32 {
        self + rhs
    }
}

impl core::ops::Add for Binary32 {
    type Output = Binary32;

    fn add(self, rhs: Binary32) -> (r: Binary32) {
        let a: u32 = self.magnitude();
        let b: u32 = rhs.magnitude();
        if a > INFINITE || b > INFINITE {
            return Binary32 { bits: QUIET };
        }
        if a == INFINITE {
            if b == INFINITE && self.is_negative() != rhs.is_negative() {
                return Binary32 { bits: QUIET };
            }
            return self;
        }
        if b == INFINITE {
            return rhs;
        }
        let negative: bool = self.is_negative();
        proof {
            lemma_units_order(a as nat, b as nat);
            rounding::lemma_rounded_zero();
        }
        if negative == rhs.is_negative() {
            if a >= b {
                Binary32::with_sign(negative, sum_code(a, b))
            } else {
                Binary32::with_sign(negative, sum_code(b, a))
            }
        } else if a > b {
            Binary32::with_sign(negative, difference_code(a, b))
        } else if a < b {
            Binary32::with_sign(!negative, difference_code(b, a))
        } else {
            Binary32 { bits: 0 }
        }
    }
}

impl vstd::std_specs::ops::SubSpecImpl for Binary32 {
    open spec fn obeys_sub_spec() -> bool {
        true
    }

    open spec fn sub_req(self, rhs: Binary32) -> bool {
        true
    }

    open spec fn sub_spec(self, rhs: Binary32) -> Binary32 {
        self - rhs
    }
}

impl core::ops::Sub for Binary32 {
    type Output = Binary32;

    fn sub(self, rhs: Binary32) -> (r: Binary32) {
        self + rhs.opposite()
    }
}

impl vstd::std_specs::ops::MulSpecImpl for Binary32 {
    open spec fn obeys_mul_spec() -> bool {
        true
    }

    open spec fn mul_req(self, rhs: Binary32) -> bool {
        true
    }

    open spec fn mul_spec(self, rhs: Binary32) -> Binary32 {
        self * rhs
    }
}

impl core::ops::Mul for Binary32 {
    type Output = Binary32;

    fn mul(self, rhs: Binary32) -> (r: Binary32) {
        let a: u32 = self.magnitude();
        let b: u32 = rhs.magnitude();
        let negative: bool = self.is_negative() != rhs.is_negative();
        if a > INFINITE || b > INFINITE {
            return Binary32 { bits: QUIET };
        }
        if a == INFINITE || b == INFINITE {
            if a == 0 || b == 0 {
                return Binary32 { bits: QUIET };
            }
            return Binary32::with_sign(negative, INFINITE);
        }
        Binary32::with_sign(negative, product_code(a, b))
    }
}

impl vstd::std_specs::ops::DivSpecImpl for Binary32 {
    open spec fn obeys_div_spec() -> bool {
        true
    }

    open spec fn div_req(self, rhs: Binary32) -> bool {
        true
    }

    open spec fn div_spec(self, rhs: Binary32) -> Binary32 {
        self / rhs
    }
}

impl core::ops::Div for Binary32 {
    type Output = Binary32;

    fn div(self, rhs: Binary32) -> (r: Binary32) {
        let a: u32 = self.magnitude();
        let b: u32 = rhs.magnitude();
        let negative: bool = self.is_negative() != rhs.is_negative();
        if a > INFINITE || b > INFINITE {
            return Binary32 { bits: QUIET };
        }
        if a == INFINITE {
            if b == INFINITE {
                return Binary32 { bits: QUIET };
            }
            return Binary32::with_sign(negative, INFINITE);
        }
        if b == INFINITE {
            return Binary32::with_sign(negative, 0);
        }
        if b == 0 {
            if a == 0 {
                return Binary32 { bits: QUIET };
            }
            return Binary32::with_sign(negative, INFINITE);
        }
        Binary32::with_sign(negative, quotient_code(a, b))
    }
}

/// `n`, or the largest number of 64 bits where `n` is larger.
pub open spec fn saturated(n: nat) -> nat {
    if n < u64::MAX {
        n
    } else {
        u64::MAX as nat
    }
}

impl Binary32 {
    /// The positive zero.
    pub fn zero() -> (r: Binary32)
        ensures
            r == signed(false, 0),
    {
        Binary32 { bits: 0 }
    }

    /// The number nearest to the whole number `n`.
    pub fn from_u64(n: u64) -> (r: Binary32)
        ensures
            r == nearest(n as nat, 1),
    {
        proof {
            lemma_pow2_adds(149, 1000);
            assert((n * pow2(149)) * pow2(1000) == n * (pow2(1149) * 1)) by (nonlinear_arith)
                requires
                    pow2(1149) == pow2(149) * pow2(1000),
            ;
        }
        let code: u32 = rounding::round(
            n as u128,
            149,
            false,
            Ghost(n as nat * pow2(149)),
            Ghost(1),
        );
        Binary32::with_sign(false, code)
    }

    /// The number nearest to the fraction `num / den`.
    pub fn ratio(num: u32, den: u32) -> (r: Binary32)
        requires
            den > 0,
        ensures
            r == nearest(num as nat, den as nat),
    {
        let top: u128 = num as u128 * 0x1_0000_0000_0000_0000;
        let m: u128 = top / den as u128;
        let rest: u128 = top % den as u128;
        proof {
            let t = pow2(1085);
            lemma2_to64();
            lemma_pow2_pos(1085);
            lemma_pow2_adds(149, 1000);
            lemma_pow2_adds(64, 1085);
            lemma_fundamental_div_mod(top as int, den as int);
            assert((num * pow2(149)) * pow2(1000) == top * t) by (nonlinear_arith)
                requires
                    pow2(149) * pow2(1000) == 0x1_0000_0000_0000_0000 * t,
                    top == num * 0x1_0000_0000_0000_0000,
            ;
            assert(top * t == m * (t * den) + rest * t && (m + 1) * (t * den) == m * (t * den) + t
                * den) by (nonlinear_arith)
                requires
                    top == den * m + rest,
            ;
            assert(rest * t < t * den && (rest > 0 ==> rest * t > 0) && (rest == 0 ==> rest * t
                == 0)) by (nonlinear_arith)
                requires
                    0 <= rest < den,
                    t > 0,
            ;
            if num > 0 {
                assert(m >= 0x100_0000) by (nonlinear_arith)
                    requires
                        top == den * m + rest,
                        rest < den,
                        den <= 0xffff_ffff,
                        top >= 0x1_0000_0000_0000_0000,
                ;
            }
        }
        let code: u32 = rounding::round(
            m,
            85,
            rest != 0,
            Ghost(num as nat * pow2(149)),
            Ghost(den as nat),
        );
        Binary32::with_sign(false, code)
    }

    /// The square root.
    pub fn sqrt(self) -> (r: Binary32)
        ensures
            r == self.root(),
    {
        let code: u32 = self.magnitude();
        if code > INFINITE || (self.is_negative() && code > 0) {
            return Binary32 { bits: QUIET };
        }
        if code == INFINITE || code == 0 {
            return self;
        }
        let (m, q): (u32, u32) = parts(code);
        proof {
            lemma_pow2_adds(q as nat, 149);
            assert((m * pow2(q as nat)) * pow2(149) == m * pow2((q + 149) as nat))
                by (nonlinear_arith)
                requires
                    pow2((q + 149) as nat) == pow2(q as nat) * pow2(149),
            ;
        }
        Binary32::with_sign(false, rounding::round_root(m, q + 149))
    }

    /// The whole part of a finite magnitude as far as 64 bits hold it, whether
    /// the rest is at least a half, and whether there is a rest.
    fn split(code: u32) -> (r: (u64, bool, bool))
        requires
            code < INFINITE,
        ensures
            r.0 == saturated(rounding::units(code as nat) / pow2(149)),
            rounding::units(code as nat) / pow2(149) <= u64::MAX ==> {
                &&& r.1 <==> 2 * (rounding::units(code as nat) % pow2(149)) >= pow2(149)
                &&& r.2 <==> rounding::units(code as nat) % pow2(149) > 0
            },
    {
        let (m, q): (u32, u32) = parts(code);
        let e: i32 = q as i32 - 149;
        proof {
            lemma_pow2_pos(149);
            lemma_pow2_adds(q as nat, 1000);
            lemma_pow2_adds((e + 1000) as nat, 149);
            let u = pow2((e + 1000) as nat);
            assert((m * pow2(q as nat)) * pow2(1000) == m * (u * pow2(149))) by (nonlinear_arith)
                requires
                    pow2(q as nat) * pow2(1000) == u * pow2(149),
            ;
        }
        rounding::whole_part(
            m as u128,
            e,
            Ghost(rounding::units(code as nat)),
            Ghost(pow2(149)),
        )
    }

    /// The whole part, as far as 64 bits hold it.
    pub fn to_u64(self) -> (n: u64)
        ensures
            n == saturated(self.whole()),
    {
        let code: u32 = self.magnitude();
        if code > INFINITE || self.is_negative() {
            return 0;
        }
        if code == INFINITE {
            proof {
                lemma_infinite_units();
            }
            return u64::MAX;
        }
        Binary32::split(code).0
    }

    /// The nearest whole number, as far as 64 bits hold it.
    pub fn round_to_u64(self) -> (n: u64)
        ensures
            n == saturated(self.nearest_whole()),
    {
        let code: u32 = self.magnitude();
        if code > INFINITE || self.is_negative() {
            return 0;
        }
        proof {
            lemma_pow2_pos(149);
            lemma_whole_steps(rounding::units(code as nat), pow2(149));
        }
        if code == INFINITE {
            proof {
                lemma_infinite_units();
            }
            return u64::MAX;
        }
        let (n, half, _): (u64, bool, bool) = Binary32::split(code);
        if half && n < u64::MAX {
            n + 1
        } else {
            n
        }
    }

    /// The least whole number not below, as far as 64 bits hold it.
    pub fn ceil_to_u64(self) -> (n: u64)
        ensures
            n == saturated(self.next_whole()),
    {
        let code: u32 = self.magnitude();
        if code > INFINITE || self.is_negative() {
            return 0;
        }
        proof {
            lemma_pow2_pos(149);
            lemma_whole_steps(rounding::units(code as nat), pow2(149));
        }
        if code == INFINITE {
            proof {
                lemma_infinite_units();
            }
            return u64::MAX;
        }
        let (n, _, rest): (u64, bool, bool) = Binary32::split(code);
        if rest && n < u64::MAX {
            n + 1
        } else {
            n
        }
    }

    /// The remainder of the division by four.
    pub fn rem_four(self) -> (r: Binary32)
        ensures
            r == self.past_fours(),
    {
        let code: u32 = self.magnitude();
        if code >= INFINITE {
            return Binary32 { bits: QUIET };
        }
        let (m, q): (u32, u32) = parts(code);
        let ghost u = rounding::units(code as nat);
        let rest: u32 = if q >= 151 {
            proof {
                lemma_pow2_adds((q - 151) as nat, 151);
                lemma_pow2_pos(151);
                let t = m * pow2((q - 151) as nat);
                assert(u == pow2(151) * t && pow2(151) * t == t * pow2(151)) by (nonlinear_arith)
                    requires
                        u == m * pow2(q as nat),
                        pow2(q as nat) == pow2((q - 151) as nat) * pow2(151),
                        t == m * pow2((q - 151) as nat),
                ;
                lemma_fundamental_div_mod_converse(u as int, pow2(151) as int, t as int, 0);
                assert(0 * pow2(q as nat) == 0) by (nonlinear_arith);
            }
            0
        } else if q <= 127 {
            proof {
                lemma2_to64();
                lemma_pow2_adds(24, q as nat);
                rounding::lemma_pow2_monotone((24 + q) as nat, 151);
                lemma_pow2_pos(q as nat);
                assert(m * pow2(q as nat) < 0x100_0000 * pow2(q as nat)) by (nonlinear_arith)
                    requires
                        m < 0x100_0000,
                        pow2(q as nat) > 0,
                ;
                lemma_small_mod(u, pow2(151));
            }
            m
        } else {
            let d: u128 = power_of_two(151 - q);
            proof {
                let p = pow2(q as nat);
                lemma_pow2_adds((151 - q) as nat, q as nat);
                lemma_pow2_pos(q as nat);
                lemma_pow2_pos((151 - q) as nat);
                let k = m as nat / d as nat;
                let o = m as nat % d as nat;
                lemma_fundamental_div_mod(m as int, d as int);
                lemma_mod_bound(m as int, d as int);
                assert(u == k * pow2(151) + o * p && 0 <= o * p < pow2(151)) by (nonlinear_arith)
                    requires
                        u == m * p,
                        m == d * k + o,
                        0 <= o < d,
                        pow2(151) == d * p,
                        p > 0,
                ;
                lemma_fundamental_div_mod_converse(
                    u as int,
                    pow2(151) as int,
                    k as int,
                    (o * p) as int,
                );
            }
            (m as u128 % d) as u32
        };
        proof {
            lemma_pow2_adds(q as nat, 1000);
            let p = pow2(q as nat);
            assert((rest * p) * pow2(1000) == rest * ((p * pow2(1000)) * 1)) by (nonlinear_arith);
        }
        let code: u32 = rounding::round(
            rest as u128,
            q as i32,
            false,
            Ghost(u % pow2(151)),
            Ghost(1),
        );
        Binary32::with_sign(self.is_negative(), code)
    }
}

/// Infinity stands above all numbers of 64 bits.
proof fn lemma_infinite_units()
    ensures
        rounding::units(INFINITE as nat) / pow2(149) > u64::MAX,
{
    let u = rounding::units(INFINITE as nat);
    lemma2_to64();
    lemma_pow2_pos(149);
    lemma_pow2_adds(23, 254);
    lemma_pow2_adds(149, 128);
    lemma_pow2_adds(64, 64);
    lemma2_to64_rest();
    assert(u == STEP as nat * pow2(254));
    assert(u == pow2(149) * pow2(128));
    lemma_div_multiples_vanish(pow2(128) as int, pow2(149) as int);
}

/// How the nearest and the next whole number follow from the whole part and the
/// rest.
proof fn lemma_whole_steps(u: nat, d: nat)
    requires
        d > 0,
    ensures
        (2 * u + d) as nat / (2 * d) == u / d + (if 2 * (u % d) >= d {
            1int
        } else {
            0int
        }),
        (u + d - 1) as nat / d == u / d + (if u % d > 0 {
            1int
        } else {
            0int
        }),
{
    let q = u / d;
    let r = u % d;
    lemma_fundamental_div_mod(u as int, d as int);
    lemma_mod_bound(u as int, d as int);
    let a: int = if 2 * r >= d {
        1
    } else {
        0
    };
    let b: int = if r > 0 {
        1
    } else {
        0
    };
    assert(2 * u + d == (q + a) * (2 * d) + (2 * r + d - 2 * a * d)) by (nonlinear_arith)
        requires
            u == d * q + r,
    ;
    assert(2 * a * d == if 2 * r >= d { 2 * d } else { 0 }) by (nonlinear_arith)
        requires
            a == (if 2 * r >= d { 1int } else { 0int }),
    ;
    lemma_fundamental_div_mod_converse(
        (2 * u + d) as int,
        (2 * d) as int,
        q + a,
        2 * r + d - 2 * a * d,
    );
    assert(u + d - 1 == (q + b) * d + (r + d - 1 - b * d)) by (nonlinear_arith)
        requires
            u == d * q + r,
    ;
    assert(b * d == if r > 0 { d as int } else { 0 }) by (nonlinear_arith)
        requires
            b == (if r > 0 { 1int } else { 0int }),
    ;
    lemma_fundamental_div_mod_converse((u + d - 1) as int, d as int, q + b, r + d - 1 - b * d);
}

/// The whole part of the product of two numbers and a count, with the product
/// kept to 53 digits, as far as 64 bits hold it. The product of the two numbers
/// alone has no more digits than that. Zero where the product is below zero or
/// no number; the first number is taken as zero where it is below zero.
pub open spec fn product_whole(a: Binary32, b: Binary32, n: u32) -> nat {
    let a = a.larger(signed(false, 0));
    if b.nan() || b.negative() {
        0
    } else if a.infinite() || b.infinite() {
        if a.code() == 0 || b.code() == 0 || n == 0 {
            0
        } else {
            u64::MAX as nat
        }
    } else {
        saturated(rounding::leading53(a.units() * b.units() * n as nat) / pow2(298))
    }
}

/// The whole part of the product of two numbers and a count.
pub fn whole_product(a: Binary32, b: Binary32, n: u32) -> (r: u64)
    ensures
        r == product_whole(a, b, n),
{
    let a: Binary32 = a.max(Binary32::zero());
    let x: u32 = a.magnitude();
    let y: u32 = b.magnitude();
    if y > INFINITE || b.is_negative() {
        return 0;
    }
    if x == INFINITE || y == INFINITE {
        if x == 0 || y == 0 || n == 0 {
            return 0;
        }
        return u64::MAX;
    }
    proof {
        lemma_units_order(x as nat, 0);
    }
    let (m1, q1): (u32, u32) = parts(x);
    let (m2, q2): (u32, u32) = parts(y);
    assert(m1 as nat * m2 as nat <= 0x1_0000_0000_0000 && m1 as nat * m2 as nat * n as nat
        <= 0x1_0000_0000_0000 * 0xffff_ffff) by (nonlinear_arith)
        requires
            m1 < 0x100_0000,
            m2 < 0x100_0000,
            n <= 0xffff_ffff,
    ;
    let m: u128 = m1 as u128 * m2 as u128 * n as u128;
    let (k, s): (u128, u32) = rounding::keep53(m);
    let q: u32 = q1 + q2;
    let ghost exact = rounding::units(x as nat) * rounding::units(y as nat) * n as nat;
    let ghost num = rounding::leading53(exact);
    let e: i32 = s as i32 + q as i32 - 298;
    proof {
        lemma_pow2_adds(q1 as nat, q2 as nat);
        assert(exact == m as nat * pow2(q as nat)) by (nonlinear_arith)
            requires
                exact == (m1 * pow2(q1 as nat)) * (m2 * pow2(q2 as nat)) * n,
                m == m1 * m2 * n,
                pow2(q as nat) == pow2(q1 as nat) * pow2(q2 as nat),
        ;
        rounding::lemma_leading53_shifts(m as nat, q as nat);
        lemma_kept_spans(k as nat, s as nat, q as nat, 298, num);
    }
    rounding::whole_part(k, e, Ghost(num), Ghost(pow2(298))).0
}

/// What is kept of a product, in the steps that a division by a power of two
/// asks for.
proof fn lemma_kept_spans(k: nat, s: nat, q: nat, d: nat, num: nat)
    requires
        num == (k * pow2(s)) * pow2(q),
        d <= 1000,
    ensures
        pow2(d) > 0,
        rounding::spans(k, s + q - d, false, num, pow2(d)),
{
    lemma_pow2_pos(d);
    lemma_pow2_adds(s, q);
    lemma_pow2_adds(s + q, 1000);
    lemma_pow2_adds((s + q - d + 1000) as nat, d);
    let u = pow2((s + q - d + 1000) as nat);
    assert(num * pow2(1000) == k * (u * pow2(d))) by (nonlinear_arith)
        requires
            num == (k * pow2(s)) * pow2(q),
            (pow2(s) * pow2(q)) * pow2(1000) == u * pow2(d),
    ;
}

/// The least whole number that is not below the share `p` of `count`, with the
/// count and the product kept to 53 digits. A share outside of zero to one
/// counts as the nearer end; one that is no number, as zero.
pub open spec fn share_of(p: Binary32, count: u64) -> nat {
    if p.nan() || p.negative() {
        0
    } else {
        let share = if p.value() > pow2(149) {
            pow2(149)
        } else {
            p.units()
        };
        let product = rounding::leading53(share * rounding::leading53(count as nat));
        saturated((product + pow2(149) - 1) as nat / pow2(149))
    }
}

/// How many of `count` make up the share `p`.
pub fn share(p: Binary32, count: u64) -> (r: u64)
    ensures
        r == share_of(p, count),
{
    let code: u32 = p.magnitude();
    if code > INFINITE || p.is_negative() {
        return 0;
    }
    let one: u32 = 0x3f80_0000;
    proof {
        lemma_one_units();
        lemma_units_order(code as nat, one as nat);
    }
    let capped: u32 = if code > one {
        one
    } else {
        code
    };
    let (m1, q1): (u32, u32) = parts(capped);
    let (m2, s2): (u128, u32) = rounding::keep53(count as u128);
    assert(m1 as nat * m2 as nat <= 0x100_0000 * 0x20_0000_0000_0000) by (nonlinear_arith)
        requires
            m1 < 0x100_0000,
            m2 <= 0x20_0000_0000_0000,
    ;
    let m: u128 = m1 as u128 * m2;
    let (k, s): (u128, u32) = rounding::keep53(m);
    let q: u32 = q1 + s2;
    let ghost exact = rounding::units(capped as nat) * rounding::leading53(count as nat);
    let ghost num = rounding::leading53(exact);
    let e: i32 = s as i32 + q as i32 - 149;
    proof {
        lemma_pow2_adds(q1 as nat, s2 as nat);
        assert(exact == m as nat * pow2(q as nat)) by (nonlinear_arith)
            requires
                exact == (m1 * pow2(q1 as nat)) * (m2 * pow2(s2 as nat)),
                m == m1 * m2,
                pow2(q as nat) == pow2(q1 as nat) * pow2(s2 as nat),
        ;
        rounding::lemma_leading53_shifts(m as nat, q as nat);
        lemma_kept_spans(k as nat, s as nat, q as nat, 149, num);
        lemma_whole_steps(num, pow2(149));
    }
    let (n, _, rest): (u64, bool, bool) = rounding::whole_part(
        k,
        e,
        Ghost(num),
        Ghost(pow2(149)),
    );
    if rest && n < u64::MAX {
        n + 1
    } else {
        n
    }
}

/// The encoding of one.
proof fn lemma_one_units()
    ensures
        rounding::units(0x3f80_0000) == pow2(149),
{
    lemma2_to64();
    lemma_pow2_adds(23, 126);
}

/// The whole number below a number above zero, the one nearest to it, and the one above it.
pub proof fn law_whole_numbers_are_near(x: Binary32)
    ensures
        x.nan() || x.negative() ==> x.whole() == 0 && x.nearest_whole() == 0 && x.next_whole() == 0,
        !x.nan() && !x.negative() ==> {
            let t = pow2(149);
            &&& x.whole() * t <= x.units() < x.whole() * t + t
            &&& 2 * (x.nearest_whole() * t) <= 2 * x.units() + t
            &&& 2 * x.units() + t < 2 * (x.nearest_whole() * t) + 2 * t
            &&& x.next_whole() * t < x.units() + t
            &&& x.units() <= x.next_whole() * t
        },
{
    let t = pow2(149) as int;
    let u = x.units() as int;
    lemma_pow2_pos(149);
    lemma_fundamental_div_mod(u, t);
    lemma_fundamental_div_mod(2 * u + t, 2 * t);
    lemma_fundamental_div_mod(u + t - 1, t);
    let a = u / t;
    let b = (2 * u + t) / (2 * t);
    let c = (u + t - 1) / t;
    assert(t * a == a * t && (2 * t) * b == 2 * (b * t) && t * c == c * t) by (nonlinear_arith);
}

/// The larger and the smaller of two numbers are these two, in order.
pub proof fn law_larger_and_smaller(a: Binary32, b: Binary32)
    requires
        !a.nan(),
        !b.nan(),
    ensures
        a.at_most(a.larger(b)) && b.at_most(a.larger(b)),
        a.smaller(b).at_most(a) && a.smaller(b).at_most(b),
        a.larger(b) == a || a.larger(b) == b,
        a.smaller(b) == a || a.smaller(b) == b,
{
}

}

//! Reading a decimal number as the nearest binary32 number.
//!
//! ```text
//! Number ::= Sign? ( "inf" | "infinity" | "nan" | Decimal )
//! Decimal ::= ( Digit+ | Digit+ "." Digit* | Digit* "." Digit+ ) ( "e" Sign? Digit+ )?
//! Sign ::= "+" | "-"
//! ```
//!
//! Letters may be small or capital.
use vstd::arithmetic::power::*;
use vstd::arithmetic::power2::*;
use vstd::prelude::*;

use crate::binary32;
use crate::binary32::{Binary32, QUIET};
use crate::natural::Natural;
use crate::rounding;
use crate::rounding::INFINITE;
use crate::text;

verus! {

/// Whether `s` begins with a sign.
pub open spec fn has_sign(s: Seq<char>) -> bool {
    s.len() > 0 && (s[0] == '+' || s[0] == '-')
}

/// `s` without its sign.
pub open spec fn unsigned(s: Seq<char>) -> Seq<char> {
    if has_sign(s) {
        s.skip(1)
    } else {
        s
    }
}

pub open spec fn has_minus(s: Seq<char>) -> bool {
    s.len() > 0 && s[0] == '-'
}

/// The whole number that the text after the "e" stands for.
pub open spec fn exponent(s: Seq<char>) -> Option<int> {
    let digits = unsigned(s);
    if digits.len() == 0 || !text::all_digits(digits) {
        None
    } else if has_minus(s) {
        Some(-(text::digits_value(digits) as int))
    } else {
        Some(text::digits_value(digits) as int)
    }
}

/// The digits of the text before the "e", and how many stand behind the point.
pub open spec fn significand(s: Seq<char>) -> Option<(Seq<char>, nat)> {
    let point = text::first_of(s, '.', '.') as int;
    let front = s.take(point);
    let back = if point < s.len() {
        s.skip(point + 1)
    } else {
        Seq::empty()
    };
    if front.len() + back.len() == 0 || !text::all_digits(front) || !text::all_digits(back) {
        None
    } else {
        Some((front + back, back.len()))
    }
}

/// The code nearest to `n` times ten to the power `e`.
pub open spec fn nearest_code(n: nat, e: int) -> nat {
    if e >= 0 {
        rounding::rounded(n * pow(10, e as nat) as nat * pow2(149), 1)
    } else {
        rounding::rounded(n * pow2(149), pow(10, (-e) as nat) as nat)
    }
}

/// The magnitude that a decimal without a sign stands for.
pub open spec fn decimal_code(s: Seq<char>) -> Option<nat> {
    let e = text::first_of(s, 'e', 'E') as int;
    let power = if e < s.len() {
        exponent(s.skip(e + 1))
    } else {
        Some(0)
    };
    match (significand(s.take(e)), power) {
        (Some((digits, behind)), Some(p)) => Some(
            nearest_code(text::digits_value(digits), p - behind),
        ),
        _ => None,
    }
}

/// The number that a text stands for, if it stands for one.
pub open spec fn parsed(s: Seq<char>) -> Option<Binary32> {
    let body = unsigned(s);
    let word = text::small_letters(body);
    if word == seq!['n', 'a', 'n'] {
        Some(binary32::not_a_number())
    } else if word == seq!['i', 'n', 'f'] || word == seq!['i', 'n', 'f', 'i', 'n', 'i', 't', 'y'] {
        Some(binary32::signed(has_minus(s), INFINITE as nat))
    } else {
        match decimal_code(body) {
            Some(code) => Some(binary32::signed(has_minus(s), code)),
            None => None,
        }
    }
}

/// The code nearest to a quotient of natural numbers.
fn quotient_code(num: Natural, den: Natural) -> (code: u32)
    requires
        den@ > 0,
    ensures
        code as nat == rounding::rounded(num@, den@),
{
    let ghost n0 = num@;
    let ghost d0 = den@;
    let mut n: Natural = num;
    let mut d: Natural = den.times_plus(0x1_0000, 0).times_plus(0x1_0000, 0).times_plus(
        0x1_0000,
        0,
    ).times_plus(0x1_0000, 0);
    let mut a: i32 = 0;
    let mut b: i32 = 0;
    proof {
        lemma2_to64();
        assert(d@ == d0 * 0x1_0000_0000_0000_0000);
        assert(d@ == (d0 * pow2(64)) * pow2(0)) by (nonlinear_arith)
            requires
                d@ == d0 * 0x1_0000_0000_0000_0000,
                pow2(64) == 0x1_0000_0000_0000_0000,
                pow2(0) == 1,
        ;
        assert(n@ == n0 * pow2(0)) by (nonlinear_arith)
            requires
                n@ == n0,
                pow2(0) == 1,
        ;
    }
    // Raise the denominator until the whole part of the quotient has 64 digits.
    let mut above: bool = n.minus(&d).is_some();
    while above
        invariant
            d0 > 0,
            n0 == num@,
            d0 == den@,
            0 <= a <= 300,
            n@ == n0,
            a > 0 ==> 2 * n@ >= d@,
            d@ == (d0 * pow2(64)) * pow2(a as nat),
            above == (n@ >= d@),
        decreases 300 - a,
    {
        if a == 300 {
            proof {
                lemma2_to64();
                lemma_pow2_adds(64, 300);
                assert((d0 * pow2(64)) * pow2(300) == d0 * pow2(364)) by (nonlinear_arith)
                    requires
                        pow2(364) == pow2(64) * pow2(300),
                ;
                rounding::lemma_rounded_infinite(n0, d0);
            }
            return INFINITE;
        }
        proof {
            lemma_pow2_unfold((a + 1) as nat);
            let x = d0 * pow2(64);
            assert((x * pow2(a as nat)) * 2 == x * (2 * pow2(a as nat))) by (nonlinear_arith);
        }
        d = d.times_plus(2, 0);
        a = a + 1;
        above = n.minus(&d).is_some();
    }
    // Raise the numerator until it has 65.
    let mut below: bool = n.minus(&d).is_none();
    while below
        invariant
            d0 > 0,
            n0 == num@,
            d0 == den@,
            0 <= a <= 300,
            0 <= b <= 128,
            a > 0 && b > 0 ==> !below,
            n@ == n0 * pow2(b as nat),
            d@ == (d0 * pow2(64)) * pow2(a as nat),
            below == (n@ < d@),
            n@ < 2 * d@,
            a > 0 && b == 0 ==> 2 * n@ >= d@,
        decreases 128 - b,
    {
        if b == 128 {
            proof {
                lemma_far_below(n0, d0);
            }
            return 0;
        }
        proof {
            lemma_pow2_unfold((b + 1) as nat);
            assert((n0 * pow2(b as nat)) * 2 == n0 * (2 * pow2(b as nat))) by (nonlinear_arith);
        }
        n = n.times_plus(2, 0);
        b = b + 1;
        below = n.minus(&d).is_none();
    }
    let ghost top = n@;
    let mut m: u128 = 1;
    let mut rest: Natural = match n.minus(&d) {
        Some(r) => r,
        None => n,
    };
    let mut i: u32 = 0;
    proof {
        assert(top * pow2(0) == 1 * d@ + rest@) by (nonlinear_arith)
            requires
                pow2(0) == 1,
                rest@ == top - d@,
        ;
    }
    while i < 64
        invariant
            i <= 64,
            rest@ < d@,
            top * pow2(i as nat) == m * d@ + rest@,
            pow2(i as nat) <= m < 2 * pow2(i as nat),
        decreases 64 - i,
    {
        let twice: Natural = rest.times_plus(2, 0);
        proof {
            lemma2_to64();
            lemma_pow2_unfold((i + 1) as nat);
            rounding::lemma_pow2_monotone(i as nat, 64);
            assert(top * (2 * pow2(i as nat)) == (2 * m) * d@ + 2 * rest@ && (2 * m + 1) * d@ == (2
                * m) * d@ + d@) by (nonlinear_arith)
                requires
                    top * pow2(i as nat) == m * d@ + rest@,
            ;
        }
        match twice.minus(&d) {
            Some(r) => {
                rest = r;
                m = 2 * m + 1;
            },
            None => {
                rest = twice;
                m = 2 * m;
            },
        }
        i = i + 1;
    }
    let one: Natural = Natural::from_u32(1);
    let more: bool = rest.minus(&one).is_some();
    proof {
        lemma2_to64();
        lemma_digits_span(n0, d0, a as nat, b as nat, m as nat, rest@);
    }
    rounding::round(m, a - b, more, Ghost(n0), Ghost(d0))
}

proof fn lemma_far_below(n: nat, d: nat)
    requires
        d > 0,
        n * pow2(128) < (d * pow2(64)) * pow2(0),
    ensures
        rounding::rounded(n, d) == 0,
{
    lemma2_to64();
    lemma_pow2_adds(64, 64);
    assert(2 * n < d) by (nonlinear_arith)
        requires
            n * (0x1_0000_0000_0000_0000 * 0x1_0000_0000_0000_0000) < (d * 0x1_0000_0000_0000_0000)
                * 1,
            d > 0,
    ;
    rounding::lemma_rounded_vanishes(n, d);
}

proof fn lemma_digits_span(n: nat, d: nat, a: nat, b: nat, m: nat, rest: nat)
    requires
        d > 0,
        a <= 300,
        b <= 128,
        (n * pow2(b)) * pow2(64) == m * ((d * pow2(64)) * pow2(a)) + rest,
        rest < (d * pow2(64)) * pow2(a),
    ensures
        rounding::spans(m, a - b, rest > 0, n, d),
{
    let z = pow2((936 - b) as nat);
    let unit = pow2((a - b + 1000) as nat) * d;
    lemma_pow2_pos((936 - b) as nat);
    lemma_pow2_adds(b, 64);
    lemma_pow2_adds(b + 64, (936 - b) as nat);
    lemma_pow2_adds(64, a);
    lemma_pow2_adds(64 + a, (936 - b) as nat);
    let dd = (d * pow2(64)) * pow2(a);
    assert(dd * z == unit) by (nonlinear_arith)
        requires
            dd == (d * pow2(64)) * pow2(a),
            pow2((a - b + 1000) as nat) == (pow2(64) * pow2(a)) * z,
            unit == pow2((a - b + 1000) as nat) * d,
    ;
    assert(n * pow2(1000) == m * unit + rest * z && (m + 1) * unit == m * unit + unit)
        by (nonlinear_arith)
        requires
            (n * pow2(b)) * pow2(64) == m * dd + rest,
            pow2(1000) == (pow2(b) * pow2(64)) * z,
            dd * z == unit,
    ;
    assert(rest * z < unit && (rest > 0 ==> rest * z > 0) && (rest == 0 ==> rest * z == 0))
        by (nonlinear_arith)
        requires
            rest < dd,
            dd * z == unit,
            z > 0,
    ;
}

/// A power of ten is not below the same power of two.
proof fn lemma_tens(n: nat)
    ensures
        pow(10, n) >= pow2(n),
        pow2(n) >= 1,
    decreases n,
{
    reveal(pow);
    lemma2_to64();
    if n > 0 {
        lemma_tens((n - 1) as nat);
        lemma_pow2_unfold(n);
    }
}

proof fn lemma_zero_code(e: int)
    ensures
        nearest_code(0, e) == 0,
{
    rounding::lemma_rounded_vanishes(0, 1);
    if e < 0 {
        lemma_tens((-e) as nat);
        rounding::lemma_rounded_vanishes(0, pow(10, (-e) as nat) as nat);
    }
    assert(0 * pow(10, e as nat) as nat * pow2(149) == 0 && 0 * pow2(149) == 0)
        by (nonlinear_arith);
}

proof fn lemma_large_code(n: nat, e: int)
    requires
        n > 0,
        e > 400,
    ensures
        nearest_code(n, e) == INFINITE,
{
    let t = pow(10, e as nat) as nat;
    lemma_tens(e as nat);
    rounding::lemma_pow2_monotone(364, e as nat);
    lemma_pow2_pos(149);
    assert(n * t * pow2(149) >= t) by (nonlinear_arith)
        requires
            n >= 1,
            pow2(149) >= 1,
            t >= 0,
    ;
    assert(1 * pow2(364) == pow2(364));
    rounding::lemma_rounded_infinite(n * t * pow2(149), 1);
}

proof fn lemma_small_code(n: nat, count: nat, e: int)
    requires
        n < pow(10, count),
        e < -(count + 400),
    ensures
        nearest_code(n, e) == 0,
{
    let t = pow(10, (-e) as nat);
    let c = pow(10, count);
    let r = (-e - count) as nat;
    let w = pow(10, r);
    lemma_pow_adds(10, count, r);
    lemma_tens(r);
    lemma_tens(count);
    lemma2_to64();
    lemma_pow2_adds(1, 149);
    rounding::lemma_pow2_monotone(150, r);
    assert(2 * (n * pow2(149)) <= n * w) by (nonlinear_arith)
        requires
            w >= 2 * pow2(149),
            n >= 0,
    ;
    assert(n * w < c * w) by (nonlinear_arith)
        requires
            n < c,
            w >= 1,
    ;
    rounding::lemma_rounded_vanishes(n * pow2(149), t as nat);
}

/// The code nearest to `n` times ten to the power `e`, for an `n` of `count`
/// decimal digits.
fn scaled_code(n: Natural, count: usize, e: i128) -> (code: u32)
    requires
        n@ < pow(10, count as nat),
        -0x1_0000_0000_0000_0000_0000 <= e <= 0x1_0000_0000_0000_0000_0000,
    ensures
        code as nat == nearest_code(n@, e as int),
{
    let ghost n0 = n@;
    let one: Natural = Natural::from_u32(1);
    if n.minus(&one).is_none() {
        proof {
            lemma_zero_code(e as int);
        }
        return 0;
    }
    if e > 400 {
        proof {
            lemma_large_code(n0, e as int);
        }
        return INFINITE;
    }
    if e < -(count as i128 + 400) {
        proof {
            lemma_small_code(n0, count as nat, e as int);
        }
        return 0;
    }
    let mut num: Natural = n;
    let mut den: Natural = one;
    let mut i: i128 = 0;
    proof {
        lemma_pow0(10);
        assert(n0 * 1 == n0);
    }
    if e >= 0 {
        while i < e
            invariant
                0 <= i <= e <= 400,
                num@ == n0 * pow(10, i as nat) as nat,
            decreases e - i,
        {
            proof {
                reveal(pow);
                lemma_tens(i as nat);
                let t = pow(10, i as nat);
                assert((n0 * t as nat) * 10 == n0 * (10 * t) as nat) by (nonlinear_arith)
                    requires
                        t >= 0,
                ;
            }
            num = num.times_plus(10, 0);
            i = i + 1;
        }
    } else {
        while i < -e
            invariant
                0 <= i <= -e <= 0x1_0000_0000_0000_0000_0000,
                den@ == pow(10, i as nat),
            decreases -e - i,
        {
            proof {
                reveal(pow);
            }
            den = den.times_plus(10, 0);
            i = i + 1;
        }
    }
    let ghost scaled = num@;
    let mut j: u32 = 0;
    proof {
        lemma2_to64();
        assert(scaled * 1 == scaled);
    }
    while j < 149
        invariant
            j <= 149,
            num@ == scaled * pow2(j as nat),
        decreases 149 - j,
    {
        proof {
            lemma_pow2_unfold((j + 1) as nat);
            assert((scaled * pow2(j as nat)) * 2 == scaled * (2 * pow2(j as nat)))
                by (nonlinear_arith);
        }
        num = num.times_plus(2, 0);
        j = j + 1;
    }
    proof {
        if e < 0 {
            lemma_tens((-e) as nat);
        }
    }
    quotient_code(num, den)
}

/// A row of digits stands for less than ten to the power of its length.
proof fn lemma_digits_bound(s: Seq<char>)
    requires
        text::all_digits(s),
    ensures
        text::digits_value(s) < pow(10, s.len()),
    decreases s.len(),
{
    reveal(pow);
    if s.len() > 0 {
        assert forall|i: int| 0 <= i < s.drop_last().len() implies text::is_digit(
            #[trigger] s.drop_last()[i],
        ) by {
            assert(s.drop_last()[i] == s[i]);
        }
        lemma_digits_bound(s.drop_last());
        assert(text::is_digit(s[s.len() - 1]));
    }
}

/// The number that the digits `before`, which `n` stands for, and those of a
/// stretch of `s` stand for, read as one row.
fn digits_number(s: &Vec<char>, from: usize, to: usize, n: Natural, Ghost(before): Ghost<
    Seq<char>,
>) -> (r: Natural)
    requires
        from <= to <= s@.len(),
        text::all_digits(s@.subrange(from as int, to as int)),
        n@ == text::digits_value(before),
    ensures
        r@ == text::digits_value(before + s@.subrange(from as int, to as int)),
{
    let mut r: Natural = n;
    let mut i: usize = from;
    let ghost row = s@.subrange(from as int, to as int);
    proof {
        assert(before + row.take(0) =~= before);
    }
    while i < to
        invariant
            from <= i <= to <= s@.len(),
            row == s@.subrange(from as int, to as int),
            text::all_digits(row),
            r@ == text::digits_value(before + row.take(i - from)),
        decreases to - i,
    {
        let c: char = s[i];
        proof {
            assert(c == row[i - from]);
            assert(text::is_digit(row[i - from]));
            let next = before + row.take(i - from + 1);
            assert(next.drop_last() =~= before + row.take(i - from));
            assert(next.last() == c);
        }
        let d: u32 = c as u32 - '0' as u32;
        r = r.times_plus(10, d);
        i = i + 1;
    }
    proof {
        assert(row.take(to - from) =~= row);
    }
    r
}

/// The whole number behind the "e", held to a hundred bits.
fn exponent_of(s: &Vec<char>, from: usize) -> (r: Option<i128>)
    requires
        from <= s@.len(),
    ensures
        match (r, exponent(s@.skip(from as int))) {
            (Some(x), Some(p)) => {
                &&& -0x1000_0000_0000_0000_0000 <= x <= 0x1000_0000_0000_0000_0000
                &&& x == p || (x == 0x1000_0000_0000_0000_0000 && p > x) || (x
                    == -0x1000_0000_0000_0000_0000 && p < x)
            },
            (None, None) => true,
            _ => false,
        },
{
    let ghost t = s@.skip(from as int);
    let signed: bool = from < s.len() && (s[from] == '+' || s[from] == '-');
    let minus: bool = from < s.len() && s[from] == '-';
    let start: usize = if signed {
        from + 1
    } else {
        from
    };
    let ghost row = s@.subrange(start as int, s@.len() as int);
    proof {
        assert(unsigned(t) =~= row);
    }
    if start == s.len() || !text::only_digits(s, start, s.len()) {
        return None;
    }
    let mut x: i128 = 0;
    let mut i: usize = start;
    proof {
        assert(row.take(0) =~= Seq::<char>::empty());
    }
    while i < s.len()
        invariant
            start <= i <= s@.len(),
            row == s@.subrange(start as int, s@.len() as int),
            text::all_digits(row),
            0 <= x <= 0x1000_0000_0000_0000_0000,
            x == text::digits_value(row.take(i - start)) || (x == 0x1000_0000_0000_0000_0000
                && text::digits_value(row.take(i - start)) > x),
        decreases s@.len() - i,
    {
        let c: char = s[i];
        proof {
            assert(c == row[i - start]);
            assert(text::is_digit(row[i - start]));
            let next = row.take(i - start + 1);
            assert(next.drop_last() =~= row.take(i - start));
            assert(next.last() == c);
        }
        let d: u32 = c as u32 - '0' as u32;
        let y: i128 = 10 * x + d as i128;
        x = if y < 0x1000_0000_0000_0000_0000 {
            y
        } else {
            0x1000_0000_0000_0000_0000
        };
        i = i + 1;
    }
    proof {
        assert(row.take(s@.len() - start) =~= row);
    }
    if minus {
        Some(-x)
    } else {
        Some(x)
    }
}

/// The magnitude that a decimal without a sign stands for.
#[verifier::rlimit(30)]
fn decimal_of(s: &Vec<char>, from: usize) -> (r: Option<u32>)
    requires
        from <= s@.len(),
    ensures
        match (r, decimal_code(s@.skip(from as int))) {
            (Some(code), Some(c)) => code as nat == c && code <= INFINITE,
            (None, None) => true,
            _ => false,
        },
{
    let ghost t = s@.skip(from as int);
    let e: usize = text::find(s, from, 'e', 'E');
    let ghost head = t.take(e - from);
    let power: Option<i128> = if e < s.len() {
        proof {
            assert(t.skip(e - from + 1) =~= s@.skip(e + 1));
        }
        exponent_of(s, e + 1)
    } else {
        Some(0)
    };
    let mut point: usize = text::find(s, from, '.', '.');
    proof {
        text::lemma_first_of_prefix(t, e - from, '.', '.');
    }
    if point > e {
        point = e;
    }
    let behind: usize = if point < e {
        point + 1
    } else {
        e
    };
    let ghost front = head.take(point - from);
    let ghost back = if point < e {
        head.skip(point - from + 1)
    } else {
        Seq::empty()
    };
    proof {
        assert(front =~= s@.subrange(from as int, point as int));
        assert(back =~= s@.subrange(behind as int, e as int));
    }
    if (point == from && behind == e) || !text::only_digits(s, from, point) || !text::only_digits(
        s,
        behind,
        e,
    ) {
        return None;
    }
    let x: i128 = match power {
        Some(x) => x,
        None => {
            return None;
        },
    };
    proof {
        assert(Seq::<char>::empty() + front =~= front);
        assert forall|i: int| 0 <= i < (front + back).len() implies text::is_digit(
            #[trigger] (front + back)[i],
        ) by {
            if i < front.len() {
                assert(text::is_digit(front[i]));
            } else {
                assert(text::is_digit(back[i - front.len()]));
            }
        }
        lemma_digits_bound(front + back);
    }
    let zero: Natural = Natural::from_u32(0);
    let n: Natural = digits_number(s, from, point, zero, Ghost(Seq::empty()));
    let n: Natural = digits_number(s, behind, e, n, Ghost(front));
    let count: usize = (point - from) + (e - behind);
    let shift: i128 = x - (e - behind) as i128;
    proof {
        let p = if e < s@.len() {
            exponent(t.skip(e - from + 1))->0
        } else {
            0
        };
        if x != p {
            if n@ == 0 {
                lemma_zero_code(shift as int);
                lemma_zero_code(p - (e - behind));
            } else if p > x {
                lemma_large_code(n@, shift as int);
                lemma_large_code(n@, p - (e - behind));
            } else {
                lemma_small_code(n@, count as nat, shift as int);
                lemma_small_code(n@, count as nat, p - (e - behind));
            }
        }
    }
    let code: u32 = scaled_code(n, count, shift);
    Some(code)
}

/// Whether the rest of `s` is `word`, in small or capital letters.
fn is_word(s: &Vec<char>, from: usize, word: &Vec<char>) -> (r: bool)
    requires
        from <= s@.len(),
    ensures
        r == (text::small_letters(s@.skip(from as int)) == word@),
{
    let ghost t = text::small_letters(s@.skip(from as int));
    if s.len() - from != word.len() {
        assert(t.len() != word@.len());
        return false;
    }
    let size: usize = s.len();
    let mut i: usize = 0;
    while i < word.len()
        invariant
            i <= word@.len(),
            size == s@.len(),
            from + word@.len() == size,
            t == text::small_letters(s@.skip(from as int)),
            forall|j: int| 0 <= j < i ==> t[j] == word@[j],
        decreases word@.len() - i,
    {
        assert(t[i as int] == text::small(s@[from + i]));
        if text::to_small(s[from + i]) != word[i] {
            return false;
        }
        i = i + 1;
    }
    assert(t =~= word@);
    true
}

/// Reads a number; `None` where the text does not stand for one.
pub fn parse(s: &str) -> (r: Option<Binary32>)
    ensures
        r == parsed(s@),
{
    let chars: Vec<char> = text::characters(s);
    let signed: bool = chars.len() > 0 && (chars[0] == '+' || chars[0] == '-');
    let minus: bool = chars.len() > 0 && chars[0] == '-';
    let start: usize = if signed {
        1
    } else {
        0
    };
    proof {
        assert(s@.skip(0) =~= s@);
        assert(chars@.skip(start as int) == unsigned(s@));
    }
    let nan: Vec<char> = vec!['n', 'a', 'n'];
    let inf: Vec<char> = vec!['i', 'n', 'f'];
    let infinity: Vec<char> = vec!['i', 'n', 'f', 'i', 'n', 'i', 't', 'y'];
    proof {
        assert(nan@ =~= seq!['n', 'a', 'n']);
        assert(inf@ =~= seq!['i', 'n', 'f']);
        assert(infinity@ =~= seq!['i', 'n', 'f', 'i', 'n', 'i', 't', 'y']);
    }
    if is_word(&chars, start, &nan) {
        return Some(Binary32 { bits: QUIET });
    }
    if is_word(&chars, start, &inf) || is_word(&chars, start, &infinity) {
        return Some(Binary32::with_sign(minus, INFINITE));
    }
    match decimal_of(&chars, start) {
        Some(code) => Some(Binary32::with_sign(minus, code)),
        None => None,
    }
}

/// Digits with a point among them stand for the number nearest to the decimal fraction:
/// the number that all digits stand for, over ten to the power of as many as are behind the
/// point.
pub proof fn law_decimals_are_nearest(front: Seq<char>, back: Seq<char>)
    requires
        text::all_digits(front),
        text::all_digits(back),
        front.len() + back.len() > 0,
    ensures
        parsed(front + seq!['.'] + back) == Some(
            binary32::nearest(text::digits_value(front + back), pow(10, back.len()) as nat),
        ),
        front.len() > 0 ==> parsed(front) == Some(binary32::nearest(text::digits_value(front), 1)),
{
    let s = front + seq!['.'] + back;
    let n = front.len();
    assert forall|j: int| 0 <= j < s.len() implies s[j] != 'e' && s[j] != 'E' && (j < n ==> s[j]
        != '.') && text::small(s[j]) != 'n' && text::small(s[j]) != 'i' by {
        if j < n {
            assert(text::is_digit(front[j]));
        } else if j > n {
            assert(text::is_digit(back[j - n - 1]));
        }
    }
    assert forall|j: int| 0 <= j < n implies front[j] != 'e' && front[j] != 'E' && front[j] != '.'
        && text::small(front[j]) != 'n' && text::small(front[j]) != 'i' by {
        assert(text::is_digit(front[j]));
    }
    text::lemma_first_of(s, 'e', 'E', s.len());
    text::lemma_first_of(s, '.', '.', n);
    text::lemma_first_of(front, 'e', 'E', n);
    text::lemma_first_of(front, '.', '.', n);
    assert(s.take(s.len() as int) =~= s);
    assert(front.take(n as int) =~= front);
    assert(s.take(n as int) =~= front);
    assert(s.skip(n as int + 1) =~= back);
    assert(front + Seq::<char>::empty() =~= front);
    if n > 0 {
        assert(text::is_digit(front[0]));
        assert(s[0] == front[0]);
        assert(text::small_letters(front)[0] == text::small(front[0]));
    }
    assert(text::small_letters(s)[0] == text::small(s[0]));
    lemma_pow0(10);
    let k = back.len();
    if k == 0 {
        let d = text::digits_value(front + back);
        assert(d * 1 == d);
    }
    let d = text::digits_value(front);
    assert(d * 1 == d);
}

/// A sign in front of a number that has none makes it the opposite, or leaves it as it is.
pub proof fn law_signs_are_taken_off(s: Seq<char>)
    requires
        !has_sign(s),
        parsed(s) matches Some(x) && !x.nan(),
    ensures
        parsed(seq!['-'] + s) == Some(parsed(s)->0.negated()),
        parsed(seq!['+'] + s) == parsed(s),
{
    assert((seq!['-'] + s).skip(1) =~= s);
    assert((seq!['+'] + s).skip(1) =~= s);
}

/// Behind an e stands a power of ten, by which the number before it is multiplied or, with
/// a minus sign, divided.
pub proof fn law_exponents_are_powers_of_ten(front: Seq<char>, power: Seq<char>)
    requires
        text::all_digits(front),
        text::all_digits(power),
        front.len() > 0,
        power.len() > 0,
    ensures
        ({
            let n = text::digits_value(front);
            let p = pow(10, text::digits_value(power)) as nat;
            &&& parsed(front + seq!['e'] + power) == Some(binary32::nearest(n * p, 1))
            &&& parsed(front + seq!['e', '-'] + power) == Some(binary32::nearest(n, p))
        }),
{
    let s = front + seq!['e'] + power;
    let m = front + seq!['e', '-'] + power;
    let n = front.len();
    assert forall|j: int| 0 <= j < n implies front[j] != 'e' && front[j] != 'E' && front[j] != '.'
        && text::small(front[j]) != 'n' && text::small(front[j]) != 'i' && s[j] == front[j] && m[j]
        == front[j] by {
        assert(text::is_digit(front[j]));
    }
    text::lemma_first_of(s, 'e', 'E', n);
    text::lemma_first_of(m, 'e', 'E', n);
    text::lemma_first_of(front, '.', '.', n);
    assert(s.take(n as int) =~= front);
    assert(m.take(n as int) =~= front);
    assert(front.take(n as int) =~= front);
    assert(s.skip(n as int + 1) =~= power);
    assert(m.skip(n as int + 1) =~= seq!['-'] + power);
    assert((seq!['-'] + power).skip(1) =~= power);
    assert(front + Seq::<char>::empty() =~= front);
    assert(text::is_digit(front[0]));
    assert(text::is_digit(power[0]));
    assert(s[0] == front[0] && m[0] == front[0]);
    assert(text::small_letters(s)[0] == text::small(s[0]));
    assert(text::small_letters(m)[0] == text::small(m[0]));
    lemma_pow0(10);
    let d = text::digits_value(front);
    assert(d * 1 == d);
}

}

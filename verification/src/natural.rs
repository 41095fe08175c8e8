//! Natural numbers of any size.
use vstd::prelude::*;

verus! {

/// The base of the digits: two to the power 32.
pub open spec fn base() -> nat {
    0x1_0000_0000
}

/// The number with the given digits, the lowest first.
pub open spec fn number(digits: Seq<u32>) -> nat
    decreases digits.len(),
{
    if digits.len() == 0 {
        0
    } else {
        number(digits.drop_last()) + digits.last() as nat * weight((digits.len() - 1) as nat)
    }
}

/// What a one in the digit `i` stands for.
pub open spec fn weight(i: nat) -> nat
    decreases i,
{
    if i == 0 {
        1
    } else {
        base() * weight((i - 1) as nat)
    }
}

/// A natural number, held by its digits, the lowest first.
pub struct Natural {
    digits: Vec<u32>,
}

impl View for Natural {
    type V = nat;

    closed spec fn view(&self) -> nat {
        number(self.digits@)
    }
}

proof fn lemma_push(digits: Seq<u32>, d: u32)
    ensures
        number(digits.push(d)) == number(digits) + d as nat * weight(digits.len()),
{
    assert(digits.push(d).drop_last() =~= digits);
}

proof fn lemma_prefix(digits: Seq<u32>, i: int)
    requires
        0 <= i < digits.len(),
    ensures
        number(digits.take(i + 1)) == number(digits.take(i)) + digits[i] as nat * weight(i as nat),
{
    assert(digits.take(i + 1) =~= digits.take(i).push(digits[i]));
    lemma_push(digits.take(i), digits[i]);
}

/// A number is below the weight of the digit after its last one.
proof fn lemma_below_weight(digits: Seq<u32>)
    ensures
        number(digits) < weight(digits.len()),
    decreases digits.len(),
{
    if digits.len() > 0 {
        let n = (digits.len() - 1) as nat;
        lemma_below_weight(digits.drop_last());
        let d = digits.last() as nat;
        let w = weight(n);
        assert(number(digits.drop_last()) + d * w < 0x1_0000_0000 * w) by (nonlinear_arith)
            requires
                number(digits.drop_last()) < w,
                d <= 0xffff_ffff,
        ;
    }
}

/// Leading zeros change nothing.
proof fn lemma_padded(digits: Seq<u32>, n: nat)
    requires
        digits.len() <= n,
    ensures
        number(padded(digits, n)) == number(digits),
    decreases n,
{
    if n == digits.len() {
        assert(padded(digits, n) =~= digits);
    } else {
        let m = (n - 1) as nat;
        lemma_padded(digits, m);
        assert(padded(digits, n).drop_last() =~= padded(digits, m));
        assert(0 * weight(m) == 0) by (nonlinear_arith);
    }
}

spec fn padded(digits: Seq<u32>, n: nat) -> Seq<u32> {
    Seq::new(
        n,
        |i: int|
            if i < digits.len() {
                digits[i]
            } else {
                0u32
            },
    )
}

impl Natural {
    pub fn from_u32(n: u32) -> (r: Natural)
        ensures
            r@ == n,
    {
        let mut digits: Vec<u32> = Vec::new();
        digits.push(n);
        proof {
            lemma_push(Seq::<u32>::empty(), n);
            assert(digits@ =~= Seq::<u32>::empty().push(n));
            assert(n as nat * 1 == n) by (nonlinear_arith);
        }
        Natural { digits }
    }

    /// The number times `k`, plus `a`.
    pub fn times_plus(self, k: u32, a: u32) -> (r: Natural)
        ensures
            r@ == self@ * k + a,
    {
        let old: Vec<u32> = self.digits;
        let mut digits: Vec<u32> = Vec::new();
        let mut carry: u64 = a as u64;
        let mut i: usize = 0;
        proof {
            assert(old@.take(0) =~= Seq::<u32>::empty());
            assert(carry as nat * 1 == carry) by (nonlinear_arith);
            assert(0 * (k as nat) == 0) by (nonlinear_arith);
        }
        while i < old.len()
            invariant
                i <= old@.len(),
                digits@.len() == i,
                carry <= 0xffff_ffff,
                number(digits@) + carry as nat * weight(i as nat) == number(old@.take(i as int))
                    * k as nat + a as nat,
            decreases old@.len() - i,
        {
            let d: u32 = old[i];
            assert(d as nat * k as nat + carry <= 0xffff_ffff_ffff_ffff) by (nonlinear_arith)
                requires
                    d <= 0xffff_ffff,
                    k <= 0xffff_ffff,
                    carry <= 0xffff_ffff,
            ;
            let t: u64 = d as u64 * k as u64 + carry;
            let low: u32 = (t % 0x1_0000_0000) as u32;
            proof {
                lemma_prefix(old@, i as int);
                lemma_push(digits@, low);
                let w = weight(i as nat);
                let high = t as nat / 0x1_0000_0000;
                let before = number(old@.take(i as int));
                assert(number(digits@) + low as nat * w + high * (0x1_0000_0000 * w) == (before + d
                    * w) * k + a) by (nonlinear_arith)
                    requires
                        number(digits@) + carry as nat * w == before * k + a,
                        t == d * k + carry,
                        t == high * 0x1_0000_0000 + low,
                ;
            }
            digits.push(low);
            carry = t / 0x1_0000_0000;
            i = i + 1;
        }
        proof {
            assert(old@.take(old@.len() as int) =~= old@);
            lemma_push(digits@, carry as u32);
        }
        digits.push(carry as u32);
        Natural { digits }
    }

    fn digit(&self, i: usize) -> (d: u32)
        ensures
            d == (if i < self.digits@.len() {
                self.digits@[i as int]
            } else {
                0
            }),
    {
        if i < self.digits.len() {
            self.digits[i]
        } else {
            0
        }
    }

    /// The number less `other`, where it is not below it.
    pub fn minus(&self, other: &Natural) -> (r: Option<Natural>)
        ensures
            match r {
                Some(rest) => self@ >= other@ && rest@ == self@ - other@,
                None => self@ < other@,
            },
    {
        let n: usize = if self.digits.len() < other.digits.len() {
            other.digits.len()
        } else {
            self.digits.len()
        };
        let ghost a = padded(self.digits@, n as nat);
        let ghost b = padded(other.digits@, n as nat);
        let mut digits: Vec<u32> = Vec::new();
        let mut borrow: u64 = 0;
        let mut i: usize = 0;
        proof {
            lemma_padded(self.digits@, n as nat);
            lemma_padded(other.digits@, n as nat);
            assert(a.take(0) =~= Seq::<u32>::empty());
            assert(b.take(0) =~= Seq::<u32>::empty());
        }
        while i < n
            invariant
                i <= n,
                a == padded(self.digits@, n as nat),
                b == padded(other.digits@, n as nat),
                digits@.len() == i,
                borrow <= 1,
                number(digits@) + number(b.take(i as int)) == number(a.take(i as int)) + borrow
                    * weight(i as nat),
            decreases n - i,
        {
            let x: u64 = self.digit(i) as u64;
            let y: u64 = other.digit(i) as u64 + borrow;
            let next: u64 = if x < y {
                1
            } else {
                0
            };
            let t: u64 = x + next * 0x1_0000_0000 - y;
            proof {
                lemma_prefix(a, i as int);
                lemma_prefix(b, i as int);
                lemma_push(digits@, t as u32);
                let w = weight(i as nat);
                let na = number(a.take(i as int));
                let nb = number(b.take(i as int));
                assert(number(digits@) + t * w + (nb + (y - borrow) * w) == na + x * w + next * (
                0x1_0000_0000 * w)) by (nonlinear_arith)
                    requires
                        number(digits@) + nb == na + borrow * w,
                        t == x + next * 0x1_0000_0000 - y,
                ;
            }
            digits.push(t as u32);
            borrow = next;
            i = i + 1;
        }
        proof {
            assert(a.take(n as int) =~= a);
            assert(b.take(n as int) =~= b);
            lemma_below_weight(digits@);
        }
        if borrow == 0 {
            Some(Natural { digits })
        } else {
            None
        }
    }
}

}

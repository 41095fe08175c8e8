//! Characters, digits and words of a text.
use vstd::prelude::*;

verus! {

/// Whether `c` is one of the ten digits.
pub open spec fn is_digit(c: char) -> bool {
    '0' <= c && c <= '9'
}

/// What the digit `c` stands for.
pub open spec fn digit_value(c: char) -> nat {
    (c as int - '0' as int) as nat
}

pub open spec fn all_digits(s: Seq<char>) -> bool {
    forall|i: int| 0 <= i < s.len() ==> is_digit(#[trigger] s[i])
}

/// The number that a row of digits stands for; zero for an empty row.
pub open spec fn digits_value(s: Seq<char>) -> nat
    decreases s.len(),
{
    if s.len() == 0 {
        0
    } else {
        10 * digits_value(s.drop_last()) + digit_value(s.last())
    }
}

/// The place of the first of the characters `a` and `b` in `s`, or the length of
/// `s` where neither occurs.
pub open spec fn first_of(s: Seq<char>, a: char, b: char) -> nat
    decreases s.len(),
{
    if s.len() == 0 || s[0] == a || s[0] == b {
        0
    } else {
        1 + first_of(s.skip(1), a, b)
    }
}

/// `c`, or its small letter where it is one of the 26 capitals.
pub open spec fn small(c: char) -> char {
    if 'A' <= c && c <= 'Z' {
        (c as u32 + 32) as char
    } else {
        c
    }
}

/// `s` with its capitals made small.
pub open spec fn small_letters(s: Seq<char>) -> Seq<char> {
    s.map_values(|c: char| small(c))
}

pub proof fn lemma_first_of(s: Seq<char>, a: char, b: char, i: nat)
    requires
        i <= s.len(),
        forall|j: int| 0 <= j < i ==> s[j] != a && s[j] != b,
        i < s.len() ==> s[i as int] == a || s[i as int] == b,
    ensures
        first_of(s, a, b) == i,
    decreases s.len(),
{
    if s.len() > 0 && i > 0 {
        assert(s[0] != a && s[0] != b);
        assert forall|j: int| 0 <= j < i - 1 implies s.skip(1)[j] != a && s.skip(1)[j] != b by {
            assert(s.skip(1)[j] == s[j + 1]);
        }
        lemma_first_of(s.skip(1), a, b, (i - 1) as nat);
    }
}

/// A character looked for in a prefix is found where it is found in the whole,
/// or at the end of the prefix.
pub proof fn lemma_first_of_prefix(s: Seq<char>, n: int, a: char, b: char)
    requires
        0 <= n <= s.len(),
    ensures
        first_of(s.take(n), a, b) == (if first_of(s, a, b) < n {
            first_of(s, a, b) as int
        } else {
            n
        }),
        first_of(s, a, b) <= s.len(),
    decreases s.len(),
{
    if n == 0 {
        if s.len() > 0 {
            lemma_first_of_prefix(s.skip(1), 0, a, b);
        }
    } else {
        assert(s.take(n).skip(1) =~= s.skip(1).take(n - 1));
        lemma_first_of_prefix(s.skip(1), n - 1, a, b);
    }
}

/// `c`, or its small letter where it is one of the 26 capitals.
pub fn to_small(c: char) -> (r: char)
    ensures
        r == small(c),
{
    if c >= 'A' && c <= 'Z' {
        (c as u8 + 32) as char
    } else {
        c
    }
}

/// The characters of a text.
pub fn characters(s: &str) -> (r: Vec<char>)
    ensures
        r@ == s@,
{
    let mut r: Vec<char> = Vec::new();
    for c in it: s.chars()
        invariant
            r@ == it.seq().take(it.index()),
            it.seq() == s@,
    {
        r.push(c);
    }
    r
}

/// Whether two texts are the same.
pub fn same(a: &str, b: &str) -> (r: bool)
    ensures
        r == (a@ == b@),
{
    a.to_owned() == b.to_owned()
}

/// The place of the first `a` or `b` at or after `from`, or the length.
pub fn find(s: &Vec<char>, from: usize, a: char, b: char) -> (i: usize)
    requires
        from <= s@.len(),
    ensures
        from <= i <= s@.len(),
        i - from == first_of(s@.skip(from as int), a, b),
{
    let mut i: usize = from;
    while i < s.len() && s[i] != a && s[i] != b
        invariant
            from <= i <= s@.len(),
            forall|j: int| from <= j < i ==> s@[j] != a && s@[j] != b,
        decreases s@.len() - i,
    {
        i = i + 1;
    }
    proof {
        lemma_first_of(s@.skip(from as int), a, b, (i - from) as nat);
    }
    i
}

/// Whether all characters of a stretch are digits.
pub fn only_digits(s: &Vec<char>, from: usize, to: usize) -> (r: bool)
    requires
        from <= to <= s@.len(),
    ensures
        r == all_digits(s@.subrange(from as int, to as int)),
{
    let mut i: usize = from;
    while i < to
        invariant
            from <= i <= to <= s@.len(),
            forall|j: int| from <= j < i ==> is_digit(#[trigger] s@[j]),
        decreases to - i,
    {
        if !(s[i] >= '0' && s[i] <= '9') {
            proof {
                let t = s@.subrange(from as int, to as int);
                assert(!is_digit(t[i - from]));
            }
            return false;
        }
        i = i + 1;
    }
    true
}

/// A digit that is written behind others multiplies them by ten and adds itself.
pub proof fn law_digits_are_decimal(front: Seq<char>, digit: char)
    requires
        is_digit(digit),
    ensures
        digits_value(front.push(digit)) == 10 * digits_value(front) + (digit as int - 48),
        0 <= digit as int - 48 <= 9,
        digits_value(Seq::empty()) == 0,
{
    assert(front.push(digit).drop_last() =~= front);
}

}

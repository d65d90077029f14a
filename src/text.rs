//! Decimal numerals for whole numbers and fractions, written into strings.

use vstd::prelude::*;

use crate::rational::{abs, Rational};

verus! {

/// The character of a decimal digit.
pub open spec fn digit_char(d: nat) -> char {
    if d == 0 {
        '0'
    } else if d == 1 {
        '1'
    } else if d == 2 {
        '2'
    } else if d == 3 {
        '3'
    } else if d == 4 {
        '4'
    } else if d == 5 {
        '5'
    } else if d == 6 {
        '6'
    } else if d == 7 {
        '7'
    } else if d == 8 {
        '8'
    } else {
        '9'
    }
}

/// The decimal digits of `n`, most significant first, without leading zeros.
pub open spec fn digits(n: nat) -> Seq<char>
    decreases n,
{
    if n < 10 {
        seq![digit_char(n)]
    } else {
        digits(n / 10) + seq![digit_char(n % 10)]
    }
}

/// The decimal numeral of an integer, with a leading `-` when it is negative.
pub open spec fn int_text(x: int) -> Seq<char> {
    if x < 0 {
        seq!['-'] + digits((-x) as nat)
    } else {
        digits(x as nat)
    }
}

/// The numeral of a fraction: a whole number where the denominator divides
/// the numerator, else `num/den`.
pub open spec fn rational_text(r: Rational) -> Seq<char> {
    let m = abs(r.num as int);
    if m % (r.den as int) == 0 {
        let q = m / (r.den as int);
        int_text(if r.num < 0 { -q } else { q })
    } else {
        int_text(r.num as int) + seq!['/'] + int_text(r.den as int)
    }
}

/// A one-character literal for a digit.
fn digit_str(d: u64) -> (r: &'static str)
    requires
        d < 10,
    ensures
        r@ == seq![digit_char(d as nat)],
{
    proof {
        reveal_strlit("0");
        reveal_strlit("1");
        reveal_strlit("2");
        reveal_strlit("3");
        reveal_strlit("4");
        reveal_strlit("5");
        reveal_strlit("6");
        reveal_strlit("7");
        reveal_strlit("8");
        reveal_strlit("9");
    }
    if d == 0 {
        "0"
    } else if d == 1 {
        "1"
    } else if d == 2 {
        "2"
    } else if d == 3 {
        "3"
    } else if d == 4 {
        "4"
    } else if d == 5 {
        "5"
    } else if d == 6 {
        "6"
    } else if d == 7 {
        "7"
    } else if d == 8 {
        "8"
    } else {
        "9"
    }
}

/// Appends the digits of `n`.
fn push_digits(s: &mut String, n: u64)
    ensures
        final(s)@ == old(s)@ + digits(n as nat),
    decreases n,
{
    if n >= 10 {
        push_digits(s, n / 10);
    }
    s.append(digit_str(n % 10));
    assert(final(s)@ =~= old(s)@ + digits(n as nat));
}

/// Appends the numeral of `mag`, or of `-mag` where `neg` holds.
fn push_signed(s: &mut String, neg: bool, mag: u64)
    ensures
        final(s)@ == old(s)@ + int_text(if neg { -(mag as int) } else { mag as int }),
{
    if neg && mag > 0 {
        proof {
            reveal_strlit("-");
        }
        s.append("-");
    }
    push_digits(s, mag);
    assert(final(s)@ =~= old(s)@ + int_text(if neg { -(mag as int) } else { mag as int }));
}

/// The magnitude of an `i64`.
fn magnitude(x: i64) -> (r: u64)
    ensures
        r as int == abs(x as int),
{
    if x < 0 {
        (-(x as i128)) as u64
    } else {
        x as u64
    }
}

/// Appends the numeral of a whole number.
pub fn push_int(s: &mut String, x: i64)
    ensures
        final(s)@ == old(s)@ + int_text(x as int),
{
    push_signed(s, x < 0, magnitude(x));
}

/// Appends the numeral of a fraction.
pub fn push_rational(s: &mut String, r: Rational)
    requires
        r.wf(),
    ensures
        final(s)@ == old(s)@ + rational_text(r),
{
    let m = magnitude(r.num);
    let d = r.den as u64;
    if m % d == 0 {
        assert(m / d <= m) by (nonlinear_arith)
            requires
                d >= 1,
        ;
        push_signed(s, r.num < 0, m / d);
    } else {
        push_int(s, r.num);
        proof {
            reveal_strlit("/");
        }
        s.append("/");
        push_int(s, r.den);
        assert(final(s)@ =~= old(s)@ + rational_text(r));
    }
}

impl Rational {
    /// The numeral of the fraction.
    pub fn format(&self) -> (r: String)
        requires
            self.wf(),
        ensures
            r@ == rational_text(*self),
    {
        let mut s = String::new();
        push_rational(&mut s, *self);
        assert(s@ =~= rational_text(*self));
        s
    }
}

} // verus!

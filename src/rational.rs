//! Exact rational numbers held as a numerator over a positive denominator, and
//! the six binary operations of the expression language, each checked for
//! overflow and for division by zero.

use vstd::prelude::*;

use crate::equations::Op;

verus! {

/// Why an operation or an evaluation did not produce a value.
#[derive(Debug, Clone, Copy, PartialEq, Eq, Structural)]
pub enum EvalError {
    /// A division whose right operand is zero, or zero raised to a negative power.
    DivisionByZero,
    /// A remainder whose right operand is zero.
    ModuloByZero,
    /// A power whose exponent is not a whole number: its value is not rational in general.
    FractionalExponent,
    /// A numerator or denominator that does not fit in 64 bits.
    Overflow,
    /// An expression whose operand count, operator count or span disagree.
    Malformed,
}

/// A rational number `num / den`. It is well formed when `den > 0`. Fractions
/// are not reduced: `6/3` and `2/1` are two representations of one value.
#[derive(Debug, Clone, Copy, PartialEq, Eq, Structural)]
pub struct Rational {
    pub num: i64,
    pub den: i64,
}

/// Whether an integer fits in an `i64`.
pub open spec fn fits(x: int) -> bool {
    i64::MIN <= x <= i64::MAX
}

pub open spec fn abs(x: int) -> int {
    if x < 0 {
        -x
    } else {
        x
    }
}

/// `x` raised to the power `e`.
pub open spec fn pow(x: int, e: nat) -> int
    decreases e,
{
    if e == 0 {
        1
    } else {
        x * pow(x, (e - 1) as nat)
    }
}

/// Remainder of `x` by `y` truncated toward zero: it takes the sign of `x`.
pub open spec fn trem(x: int, y: int) -> int {
    let r = abs(x) % abs(y);
    if x < 0 {
        -r
    } else {
        r
    }
}

/// The rational `n / d` as stored, or `Overflow` where a part does not fit.
pub open spec fn make(n: int, d: int) -> Result<Rational, EvalError> {
    if fits(n) && fits(d) {
        Ok(Rational { num: n as i64, den: d as i64 })
    } else {
        Err(EvalError::Overflow)
    }
}

/// `make` after moving the sign of a negative denominator to the numerator.
pub open spec fn make_signed(n: int, d: int) -> Result<Rational, EvalError> {
    if d < 0 {
        make(-n, -d)
    } else {
        make(n, d)
    }
}

impl Rational {
    pub open spec fn wf(self) -> bool {
        self.den > 0
    }

    /// Whether two fractions denote the same number.
    pub open spec fn value_eq(self, o: Rational) -> bool {
        self.num * o.den == o.num * self.den
    }

    /// Whether the fraction denotes a whole number.
    pub open spec fn is_whole(self) -> bool {
        abs(self.num as int) % (self.den as int) == 0
    }

    /// The whole number `n`.
    pub fn from_int(n: i64) -> (r: Rational)
        ensures
            r.num == n,
            r.den == 1,
    {
        Rational { num: n, den: 1 }
    }

    /// The fraction `num / den` with the sign on the numerator: `None` for a
    /// zero denominator, or where `den` is negative and a negated part does
    /// not fit.
    pub fn new(num: i64, den: i64) -> (r: Option<Rational>)
        ensures
            r == (if den == 0 {
                None
            } else {
                match make_signed(num as int, den as int) {
                    Ok(v) => Some(v),
                    Err(_) => None,
                }
            }),
            r matches Some(v) ==> v.wf(),
    {
        if den == 0 {
            None
        } else if den > 0 {
            Some(Rational { num, den })
        } else if num == i64::MIN || den == i64::MIN {
            None
        } else {
            Some(Rational { num: -num, den: -den })
        }
    }

    /// Whether `self` and `o` denote the same number.
    pub fn same_value(&self, o: &Rational) -> (r: bool)
        ensures
            r == self.value_eq(*o),
    {
        proof {
            lemma_mul_fits_i128(self.num as int, o.den as int);
            lemma_mul_fits_i128(o.num as int, self.den as int);
        }
        (self.num as i128) * (o.den as i128) == (o.num as i128) * (self.den as i128)
    }
}

/// A product of two `i64` values is well inside `i128`.
pub proof fn lemma_mul_fits_i128(x: int, y: int)
    requires
        fits(x),
        fits(y),
    ensures
        abs(x * y) <= 0x4000_0000_0000_0000_0000_0000_0000_0000,
        -0x4000_0000_0000_0000_0000_0000_0000_0000 <= x * y <= 0x4000_0000_0000_0000_0000_0000_0000_0000,
{
    assert(abs(x) <= 0x8000_0000_0000_0000);
    assert(abs(y) <= 0x8000_0000_0000_0000);
    assert(abs(x * y) == abs(x) * abs(y)) by (nonlinear_arith);
    assert(abs(x) * abs(y) <= 0x8000_0000_0000_0000 * 0x8000_0000_0000_0000) by (nonlinear_arith)
        requires
            0 <= abs(x) <= 0x8000_0000_0000_0000,
            0 <= abs(y) <= 0x8000_0000_0000_0000,
    ;
}

/// A product of an `i64` value and a positive one leaves room for a second in `i128`.
pub proof fn lemma_mul_pos_fits_i128(x: int, y: int)
    requires
        fits(x),
        0 < y <= i64::MAX,
    ensures
        -0x3fff_ffff_ffff_ffff_8000_0000_0000_0000 <= x * y <= 0x3fff_ffff_ffff_ffff_8000_0000_0000_0000,
{
    assert(abs(x) <= 0x8000_0000_0000_0000);
    assert(abs(x * y) == abs(x) * y) by (nonlinear_arith)
        requires
            y > 0,
    ;
    assert(abs(x) * y <= 0x8000_0000_0000_0000 * 0x7fff_ffff_ffff_ffff) by (nonlinear_arith)
        requires
            0 <= abs(x) <= 0x8000_0000_0000_0000,
            0 < y <= 0x7fff_ffff_ffff_ffff,
    ;
}

/// Turns an `i128` into a stored part, or reports overflow.
fn narrow(x: i128) -> (r: Option<i64>)
    ensures
        r == (if fits(x as int) {
            Some(x as i64)
        } else {
            None
        }),
{
    if i64::MIN as i128 <= x && x <= i64::MAX as i128 {
        Some(x as i64)
    } else {
        None
    }
}

/// `n / d` as stored, where both parts are held in `i128`.
fn make_exec(n: i128, d: i128) -> (r: Result<Rational, EvalError>)
    ensures
        r == make(n as int, d as int),
{
    match (narrow(n), narrow(d)) {
        (Some(a), Some(b)) => Ok(Rational { num: a, den: b }),
        _ => Err(EvalError::Overflow),
    }
}

/// The powers of 0, 1 and -1.
proof fn lemma_pow_unit(x: int, e: nat)
    requires
        -1 <= x <= 1,
    ensures
        x == 0 ==> pow(x, e) == (if e == 0 { 1int } else { 0int }),
        x == 1 ==> pow(x, e) == 1,
        x == -1 ==> pow(x, e) == (if e % 2 == 0 { 1int } else { -1int }),
    decreases e,
{
    if e > 0 {
        lemma_pow_unit(x, (e - 1) as nat);
    }
}

/// Powers of a positive integer are positive; those of a non-zero one are non-zero.
proof fn lemma_pow_sign(x: int, e: nat)
    ensures
        x > 0 ==> pow(x, e) > 0,
        x != 0 ==> pow(x, e) != 0,
    decreases e,
{
    if e > 0 {
        lemma_pow_sign(x, (e - 1) as nat);
        let p = pow(x, (e - 1) as nat);
        assert(x > 0 && p > 0 ==> x * p > 0) by (nonlinear_arith);
        assert(x != 0 && p != 0 ==> x * p != 0) by (nonlinear_arith);
    }
}

/// Each further factor of an integer of magnitude at least 2 at least doubles the power.
proof fn lemma_pow_doubles(x: int, i: nat, j: nat)
    requires
        abs(x) >= 2,
        i < j,
    ensures
        abs(pow(x, j)) >= 2 * abs(pow(x, i)),
    decreases j,
{
    let p = pow(x, (j - 1) as nat);
    assert(abs(x * p) == abs(x) * abs(p)) by (nonlinear_arith);
    assert(abs(x) * abs(p) >= 2 * abs(p)) by (nonlinear_arith)
        requires
            abs(x) >= 2,
            abs(p) >= 0,
    ;
    if i + 1 < j {
        lemma_pow_doubles(x, i, (j - 1) as nat);
    }
}

/// `x` raised to `e`, or `None` where the power does not fit in an `i64`.
fn checked_pow(x: i64, e: u64) -> (r: Option<i64>)
    ensures
        r == (if fits(pow(x as int, e as nat)) {
            Some(pow(x as int, e as nat) as i64)
        } else {
            None
        }),
{
    if -1 <= x && x <= 1 {
        proof {
            lemma_pow_unit(x as int, e as nat);
        }
        if x == 0 {
            if e == 0 {
                Some(1)
            } else {
                Some(0)
            }
        } else if x == 1 || e % 2 == 0 {
            Some(1)
        } else {
            Some(-1)
        }
    } else {
        let mut acc: i64 = 1;
        let mut i: u64 = 0;
        while i < e
            invariant
                i <= e,
                acc as int == pow(x as int, i as nat),
                x < -1 || x > 1,
            decreases e - i,
        {
            match acc.checked_mul(x) {
                Some(v) => {
                    assert(pow(x as int, (i + 1) as nat) == x * pow(x as int, i as nat));
                    acc = v;
                    i = i + 1;
                },
                None => {
                    proof {
                        assert(pow(x as int, (i + 1) as nat) == x * pow(x as int, i as nat));
                        if i + 1 < e {
                            lemma_pow_doubles(x as int, (i + 1) as nat, e as nat);
                        }
                    }
                    return None;
                },
            }
        }
        Some(acc)
    }
}

/// The result of one operation on well-formed operands.
pub open spec fn apply_spec(op: Op, a: Rational, b: Rational) -> Result<Rational, EvalError> {
    match op {
        Op::Add => make(a.num * b.den + b.num * a.den, a.den * b.den),
        Op::Sub => make(a.num * b.den - b.num * a.den, a.den * b.den),
        Op::Mul => make(a.num * b.num, a.den * b.den),
        Op::Div => if b.num == 0 {
            Err(EvalError::DivisionByZero)
        } else {
            make_signed(a.num * b.den, a.den * b.num)
        },
        Op::Mod => if b.num == 0 {
            Err(EvalError::ModuloByZero)
        } else {
            make(trem(a.num * b.den, b.num * a.den), a.den * b.den)
        },
        Op::Exp => power_spec(a, b),
    }
}

/// `a` raised to `b`: defined where `b` is a whole number `q` (or `-q`). For
/// `-q` both powers are computed before the fraction is turned over.
pub open spec fn power_spec(a: Rational, b: Rational) -> Result<Rational, EvalError> {
    if !b.is_whole() {
        Err(EvalError::FractionalExponent)
    } else {
        let q = (abs(b.num as int) / (b.den as int)) as nat;
        if b.num >= 0 {
            make(pow(a.num as int, q), pow(a.den as int, q))
        } else if a.num == 0 {
            Err(EvalError::DivisionByZero)
        } else if !fits(pow(a.den as int, q)) || !fits(pow(a.num as int, q)) {
            Err(EvalError::Overflow)
        } else {
            make_signed(pow(a.den as int, q), pow(a.num as int, q))
        }
    }
}

/// `n / d` after moving the sign of a negative denominator to the numerator.
fn make_signed_exec(n: i128, d: i128) -> (r: Result<Rational, EvalError>)
    requires
        -0x4000_0000_0000_0000_0000_0000_0000_0000 <= n <= 0x4000_0000_0000_0000_0000_0000_0000_0000,
        -0x4000_0000_0000_0000_0000_0000_0000_0000 <= d <= 0x4000_0000_0000_0000_0000_0000_0000_0000,
    ensures
        r == make_signed(n as int, d as int),
{
    if d < 0 {
        make_exec(-n, -d)
    } else {
        make_exec(n, d)
    }
}

/// The magnitude of an `i128` that is well inside its range.
fn abs128(x: i128) -> (r: u128)
    requires
        -0x4000_0000_0000_0000_0000_0000_0000_0000 <= x <= 0x4000_0000_0000_0000_0000_0000_0000_0000,
    ensures
        r as int == abs(x as int),
{
    if x < 0 {
        (-x) as u128
    } else {
        x as u128
    }
}

/// `a` raised to `b`.
fn power(a: Rational, b: Rational) -> (r: Result<Rational, EvalError>)
    requires
        a.wf(),
        b.wf(),
    ensures
        r == power_spec(a, b),
        r matches Ok(v) ==> v.wf(),
{
    let m = abs128(b.num as i128);
    let d = b.den as u128;
    if m % d != 0 {
        return Err(EvalError::FractionalExponent);
    }
    let q = (m / d) as u64;
    assert(q as nat == (abs(b.num as int) / (b.den as int)) as nat) by {
        assert(abs(b.num as int) <= 0x8000_0000_0000_0000);
        assert(abs(b.num as int) / (b.den as int) <= abs(b.num as int)) by (nonlinear_arith)
            requires
                b.den >= 1,
                abs(b.num as int) >= 0,
        ;
    }
    proof {
        lemma_pow_sign(a.num as int, q as nat);
        lemma_pow_sign(a.den as int, q as nat);
    }
    let pn = checked_pow(a.num, q);
    let pd = checked_pow(a.den, q);
    if b.num >= 0 {
        match (pn, pd) {
            (Some(x), Some(y)) => Ok(Rational { num: x, den: y }),
            _ => Err(EvalError::Overflow),
        }
    } else if a.num == 0 {
        Err(EvalError::DivisionByZero)
    } else {
        match (pd, pn) {
            (Some(x), Some(y)) => make_signed_exec(x as i128, y as i128),
            _ => {
                Err(EvalError::Overflow)
            },
        }
    }
}

/// One operation on well-formed operands, exact or reported as an error.
pub fn apply(op: Op, a: Rational, b: Rational) -> (r: Result<Rational, EvalError>)
    requires
        a.wf(),
        b.wf(),
    ensures
        r == apply_spec(op, a, b),
        r matches Ok(v) ==> v.wf(),
{
    proof {
        lemma_mul_pos_fits_i128(a.num as int, b.den as int);
        lemma_mul_pos_fits_i128(b.num as int, a.den as int);
        lemma_mul_fits_i128(a.num as int, b.num as int);
        lemma_mul_fits_i128(a.den as int, b.den as int);
        lemma_mul_fits_i128(a.den as int, b.num as int);
    }
    let an = a.num as i128;
    let ad = a.den as i128;
    let bn = b.num as i128;
    let bd = b.den as i128;
    let r = match op {
        Op::Add => make_exec(an * bd + bn * ad, ad * bd),
        Op::Sub => make_exec(an * bd - bn * ad, ad * bd),
        Op::Mul => make_exec(an * bn, ad * bd),
        Op::Div => if bn == 0 {
            Err(EvalError::DivisionByZero)
        } else {
            make_signed_exec(an * bd, ad * bn)
        },
        Op::Mod => if bn == 0 {
            Err(EvalError::ModuloByZero)
        } else {
            let x = an * bd;
            assert(b.num * a.den != 0) by (nonlinear_arith)
                requires
                    a.den > 0,
                    b.num != 0,
            ;
            let rem = (abs128(x) % abs128(bn * ad)) as i128;
            let t = if x < 0 {
                -rem
            } else {
                rem
            };
            make_exec(t, ad * bd)
        },
        Op::Exp => power(a, b),
    };
    proof {
        assert(a.den * b.den > 0) by (nonlinear_arith)
            requires
                a.den > 0,
                b.den > 0,
        ;
        if op == Op::Div && b.num != 0 {
            assert(a.den * b.num != 0) by (nonlinear_arith)
                requires
                    a.den > 0,
                    b.num != 0,
            ;
        }
    }
    r
}

/// An operation on well-formed operands that succeeds gives a well-formed result.
pub proof fn lemma_apply_wf(op: Op, a: Rational, b: Rational)
    requires
        a.wf(),
        b.wf(),
    ensures
        apply_spec(op, a, b) matches Ok(v) ==> v.wf(),
{
    assert(a.den * b.den > 0) by (nonlinear_arith)
        requires
            a.den > 0,
            b.den > 0,
    ;
    if op == Op::Div && b.num != 0 {
        assert(a.den * b.num != 0) by (nonlinear_arith)
            requires
                a.den > 0,
                b.num != 0,
        ;
    }
    if op == Op::Exp && b.is_whole() {
        let q = (abs(b.num as int) / (b.den as int)) as nat;
        lemma_pow_sign(a.num as int, q);
        lemma_pow_sign(a.den as int, q);
    }
}

} // verus!

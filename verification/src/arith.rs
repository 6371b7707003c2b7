//! What the operators compute. The language's integers are 128 bits wide and
//! signed; results that leave that range wrap round, as in two's complement.

use vstd::arithmetic::power::pow;
use vstd::prelude::*;

use crate::ast::{BinOp, UnOp};
use crate::error::EvalError;

verus! {

/// The integer `x` as the language holds it: the number in the range of
/// `i128` that differs from `x` by a multiple of 2^128.
pub open spec fn wrap(x: int) -> i128 {
    let m = x % 0x1_0000_0000_0000_0000_0000_0000_0000_0000int;
    if m > i128::MAX {
        (m - 0x1_0000_0000_0000_0000_0000_0000_0000_0000int) as i128
    } else {
        m as i128
    }
}

/// 1 for true, 0 for false.
pub open spec fn truth(b: bool) -> i128 {
    if b {
        1
    } else {
        0
    }
}

/// The absolute value of `x`.
pub open spec fn magnitude(x: int) -> int {
    if x < 0 {
        -x
    } else {
        x
    }
}

/// `l` divided by `r`, rounded towards zero. `r` is not 0.
pub open spec fn quotient(l: int, r: int) -> int {
    if (l < 0) == (r < 0) {
        magnitude(l) / magnitude(r)
    } else {
        -(magnitude(l) / magnitude(r))
    }
}

/// What is left of `l` after division by `r` rounded towards zero; it has
/// the sign of `l`. `r` is not 0.
pub open spec fn remainder(l: int, r: int) -> int {
    if l < 0 {
        -(magnitude(l) % magnitude(r))
    } else {
        magnitude(l) % magnitude(r)
    }
}

/// The value of `l op r`, or the reason why it has none.
pub open spec fn bin_value(op: BinOp, l: i128, r: i128) -> Result<i128, EvalError> {
    match op {
        BinOp::Add => Ok(wrap(l + r)),
        BinOp::Sub => Ok(wrap(l - r)),
        BinOp::Mul => Ok(wrap(l * r)),
        BinOp::Div => if r == 0 {
            Err(EvalError::DivideByZero)
        } else {
            Ok(wrap(quotient(l as int, r as int)))
        },
        BinOp::Rem => if r == 0 {
            Err(EvalError::DivideByZero)
        } else {
            Ok(wrap(remainder(l as int, r as int)))
        },
        BinOp::Pow => if 0 <= r <= u32::MAX {
            Ok(wrap(pow(l as int, r as nat)))
        } else {
            Err(EvalError::InvalidArgument)
        },
        BinOp::Gt => Ok(truth(l > r)),
        BinOp::Ge => Ok(truth(l >= r)),
        BinOp::Lt => Ok(truth(l < r)),
        BinOp::Le => Ok(truth(l <= r)),
        BinOp::Eq => Ok(truth(l == r)),
        BinOp::Ne => Ok(truth(l != r)),
        BinOp::And => Ok(truth(l != 0 && r != 0)),
        BinOp::Or => Ok(truth(l != 0 || r != 0)),
    }
}

/// The value of `op v` for the prefix operators that need no heap: `+`, `-`
/// and `!`. For `*` it is `v` itself, the offset to read.
pub open spec fn un_value(op: UnOp, v: i128) -> i128 {
    match op {
        UnOp::Plus => v,
        UnOp::Minus => wrap(-v),
        UnOp::Not => truth(v == 0),
        UnOp::Deref => v,
    }
}

/// `a` and `b` differ by a multiple of 2^128: wrapped round, they are the
/// same.
pub open spec fn alike(a: int, b: int) -> bool {
    a % 0x1_0000_0000_0000_0000_0000_0000_0000_0000int == b
        % 0x1_0000_0000_0000_0000_0000_0000_0000_0000int
}

/// A number wrapped round differs from the number by a multiple of 2^128.
proof fn lemma_wrap_alike(x: int)
    ensures
        alike(wrap(x) as int, x),
{
    let r = 0x1_0000_0000_0000_0000_0000_0000_0000_0000int;
    let m = x % r;
    vstd::arithmetic::div_mod::lemma_mod_twice(x, r);
    if m > i128::MAX {
        vstd::arithmetic::div_mod::lemma_mod_sub_multiples_vanish(m, r);
    }
}

/// Products of numbers that are alike are alike.
proof fn lemma_alike_mul(a: int, b: int, c: int, d: int)
    requires
        alike(a, b),
        alike(c, d),
    ensures
        alike(a * c, b * d),
{
    let r = 0x1_0000_0000_0000_0000_0000_0000_0000_0000int;
    vstd::arithmetic::div_mod::lemma_mul_mod_noop_general(a, c, r);
    vstd::arithmetic::div_mod::lemma_mul_mod_noop_general(b, d, r);
}

/// Powers of numbers that are alike are alike.
proof fn lemma_alike_pow(a: int, b: int, n: nat)
    requires
        alike(a, b),
    ensures
        alike(pow(a, n), pow(b, n)),
{
    let r = 0x1_0000_0000_0000_0000_0000_0000_0000_0000int;
    vstd::arithmetic::power::lemma_pow_mod_noop(a, n, r);
    vstd::arithmetic::power::lemma_pow_mod_noop(b, n, r);
}

/// A power of a square is the power with twice the exponent.
proof fn lemma_pow_of_square(b: int, n: nat)
    ensures
        pow(b * b, n) == pow(b, 2 * n),
        pow(b, 2 * n + 1) == b * pow(b, 2 * n),
{
    vstd::arithmetic::power::lemma_pow1(b);
    vstd::arithmetic::power::lemma_pow_adds(b, 1, 1);
    vstd::arithmetic::power::lemma_pow_multiplies(b, 2, n);
    vstd::arithmetic::power::lemma_pow_adds(b, 1, 2 * n);
}

/// `base` to the power `exp`, wrapped round: by squaring, in as many rounds
/// as `exp` has bits.
fn power(base: i128, exp: u32) -> (r: i128)
    ensures
        r == wrap(pow(base as int, exp as nat)),
{
    let mut acc: i128 = 1;
    let mut b: i128 = base;
    let mut k: u32 = exp;
    proof {
        assert(1 * pow(base as int, exp as nat) == pow(base as int, exp as nat));
    }
    while k > 0
        invariant
            alike(acc * pow(b as int, k as nat), pow(base as int, exp as nat)),
        decreases k,
    {
        let ghost acc0 = acc as int;
        let ghost b0 = b as int;
        let ghost k0 = k as nat;
        let odd = k % 2 == 1;
        if odd {
            acc = times(acc, b);
        }
        b = times(b, b);
        k = k / 2;
        proof {
            let half = k as nat;
            lemma_wrap_alike(b0 * b0);
            lemma_alike_pow(b as int, b0 * b0, half);
            lemma_pow_of_square(b0, half);
            if odd {
                lemma_wrap_alike(acc0 * b0);
                lemma_alike_mul(acc as int, acc0 * b0, pow(b as int, half), pow(b0, 2 * half));
                assert((acc0 * b0) * pow(b0, 2 * half) == acc0 * (b0 * pow(b0, 2 * half)))
                    by (nonlinear_arith);
                assert(k0 == 2 * half + 1);
            } else {
                lemma_alike_mul(acc as int, acc0, pow(b as int, half), pow(b0, 2 * half));
                assert(k0 == 2 * half);
            }
        }
    }
    proof {
        vstd::arithmetic::power::lemma_pow0(b as int);
        assert(acc * 1 == acc);
        lemma_wrap_near(acc as int);
    }
    acc
}

/// 1 for true, 0 for false.
fn truth_of(b: bool) -> (r: i128)
    ensures
        r == truth(b),
{
    if b {
        1
    } else {
        0
    }
}

/// `l / r`, rounded towards zero and wrapped round.
fn divide(l: i128, r: i128) -> (q: i128)
    requires
        r != 0,
    ensures
        q == wrap(quotient(l as int, r as int)),
{
    proof {
        lemma_wrap_near(quotient(l as int, r as int));
        lemma_quotient_by_signs(l as int, r as int);
    }
    if l == i128::MIN && r == -1 {
        i128::MIN
    } else {
        match l.checked_div(r) {
            Some(q) => q,
            None => 0,
        }
    }
}

/// What is left of `l` after division by `r`.
fn modulo(l: i128, r: i128) -> (m: i128)
    requires
        r != 0,
    ensures
        m == wrap(remainder(l as int, r as int)),
{
    proof {
        lemma_wrap_near(remainder(l as int, r as int));
        lemma_remainder_by_signs(l as int, r as int);
    }
    if l == i128::MIN && r == -1 {
        0
    } else {
        match l.checked_rem(r) {
            Some(m) => m,
            None => 0,
        }
    }
}

/// `l + r`, wrapped round.
fn plus(l: i128, r: i128) -> (v: i128)
    ensures
        v == wrap(l + r),
{
    proof {
        lemma_wrap_near(l + r);
    }
    l.wrapping_add(r)
}

/// `l - r`, wrapped round.
fn minus(l: i128, r: i128) -> (v: i128)
    ensures
        v == wrap(l - r),
{
    proof {
        lemma_wrap_near(l - r);
    }
    l.wrapping_sub(r)
}

/// `l * r`, wrapped round.
fn times(l: i128, r: i128) -> (v: i128)
    ensures
        v == wrap(l * r),
{
    l.wrapping_mul(r)
}

impl BinOp {
    /// Computes `l self r`.
    pub fn apply(self, l: i128, r: i128) -> (res: Result<i128, EvalError>)
        ensures
            res == bin_value(self, l, r),
    {
        match self {
            BinOp::Add => Ok(plus(l, r)),
            BinOp::Sub => Ok(minus(l, r)),
            BinOp::Mul => Ok(times(l, r)),
            BinOp::Div => {
                if r == 0 {
                    Err(EvalError::DivideByZero)
                } else {
                    Ok(divide(l, r))
                }
            },
            BinOp::Rem => {
                if r == 0 {
                    Err(EvalError::DivideByZero)
                } else {
                    Ok(modulo(l, r))
                }
            },
            BinOp::Pow => {
                if 0 <= r && r <= 0xffff_ffff {
                    Ok(power(l, r as u32))
                } else {
                    Err(EvalError::InvalidArgument)
                }
            },
            BinOp::Gt => Ok(truth_of(l > r)),
            BinOp::Ge => Ok(truth_of(l >= r)),
            BinOp::Lt => Ok(truth_of(l < r)),
            BinOp::Le => Ok(truth_of(l <= r)),
            BinOp::Eq => Ok(truth_of(l == r)),
            BinOp::Ne => Ok(truth_of(l != r)),
            BinOp::And => Ok(truth_of(l != 0 && r != 0)),
            BinOp::Or => Ok(truth_of(l != 0 || r != 0)),
        }
    }
}

impl UnOp {
    /// Computes `self v` for `+`, `-` and `!`; for `*` it returns `v`, the
    /// offset to read.
    pub fn apply(self, v: i128) -> (res: i128)
        ensures
            res == un_value(self, v),
    {
        match self {
            UnOp::Plus => v,
            UnOp::Minus => minus(0, v),
            UnOp::Not => truth_of(v == 0),
            UnOp::Deref => v,
        }
    }
}

/// Wrapping a number between -2^128 and 2^128 adds or takes away 2^128 at
/// most once.
pub proof fn lemma_wrap_near(x: int)
    requires
        -0x1_0000_0000_0000_0000_0000_0000_0000_0000int <= x
            < 0x1_0000_0000_0000_0000_0000_0000_0000_0000int,
    ensures
        wrap(x) == if x > i128::MAX {
            x - 0x1_0000_0000_0000_0000_0000_0000_0000_0000int
        } else if x < i128::MIN {
            x + 0x1_0000_0000_0000_0000_0000_0000_0000_0000int
        } else {
            x
        },
{
    let r = 0x1_0000_0000_0000_0000_0000_0000_0000_0000int;
    if x >= 0 {
        vstd::arithmetic::div_mod::lemma_small_mod(x as nat, r as nat);
    } else {
        vstd::arithmetic::div_mod::lemma_small_mod((x + r) as nat, r as nat);
        vstd::arithmetic::div_mod::lemma_mod_add_multiples_vanish(x, r);
    }
}

/// The quotient by the signs of dividend and divisor, with all divisions on
/// numbers that are not negative; and where the divisor is neither 1 nor -1,
/// the quotient is smaller in magnitude than the dividend.
proof fn lemma_quotient_by_signs(x: int, d: int)
    requires
        d != 0,
    ensures
        x > 0 && d > 0 ==> quotient(x, d) == x / d,
        x < 0 && d < 0 ==> quotient(x, d) == (x * -1) / (d * -1),
        x < 0 && d > 0 ==> quotient(x, d) == ((x * -1) / d) * -1,
        x > 0 && d < 0 ==> quotient(x, d) == (x / (d * -1)) * -1,
        x == 0 ==> quotient(x, d) == 0,
        magnitude(d) == 1 ==> magnitude(quotient(x, d)) == magnitude(x),
        x != 0 && magnitude(d) >= 2 ==> magnitude(quotient(x, d)) < magnitude(x),
{
    let a = magnitude(x);
    let b = magnitude(d);
    assert((x * -1) / (d * -1) == (-x) / (-d));
    assert((x * -1) / d == (-x) / d);
    assert(x / (d * -1) == x / (-d));
    assert(a == 0 ==> a / b == 0) by (nonlinear_arith)
        requires
            b > 0,
    ;
    assert(b == 1 ==> a / b == a) by (nonlinear_arith);
    assert(a > 0 && b >= 2 ==> 0 <= a / b < a) by (nonlinear_arith);
}

/// The remainder by the signs of dividend and divisor, with all divisions on
/// numbers that are not negative.
proof fn lemma_remainder_by_signs(x: int, d: int)
    requires
        d != 0,
    ensures
        x > 0 && d > 0 ==> remainder(x, d) == x % d,
        x < 0 && d < 0 ==> remainder(x, d) == ((x * -1) % (d * -1)) * -1,
        x < 0 && d > 0 ==> remainder(x, d) == ((x * -1) % d) * -1,
        x > 0 && d < 0 ==> remainder(x, d) == x % (d * -1),
        x == 0 ==> remainder(x, d) == 0,
        magnitude(d) == 1 ==> remainder(x, d) == 0,
{
    let a = magnitude(x);
    let b = magnitude(d);
    assert((x * -1) % (d * -1) == (-x) % (-d));
    assert((x * -1) % d == (-x) % d);
    assert(x % (d * -1) == x % (-d));
    assert(a == 0 ==> a % b == 0) by (nonlinear_arith)
        requires
            b > 0,
    ;
    assert(b == 1 ==> a % b == 0) by (nonlinear_arith);
}

} // verus!

//! Evaluator: reduces an expression tree to a 32-bit signed integer.
//!
//! [`evaluate`] gives the value of a tree over the mathematical integers and
//! says where evaluation fails; [`resolve`] is proved to compute it.

use vstd::prelude::*;
use crate::pratt::E;
use crate::tokenizer::OP;

verus! {

/// Why an expression has no value.
#[derive(Clone, Copy, PartialEq, Eq, Debug, Structural)]
pub enum EvalError {
    /// The right operand of `/` is zero.
    DivisionByZero,
    /// The right operand of `^` is negative.
    NegativeExponent,
    /// A literal or the value of an operation does not fit in `i32`.
    Overflow,
    /// A prefix operator other than `+` and `-`: such a node has no value.
    UndefinedOperation,
}

/// The values that `i32` holds.
pub open spec fn fits(v: int) -> bool {
    i32::MIN <= v <= i32::MAX
}

/// `v` if it fits in `i32`, and `Overflow` if it does not.
pub open spec fn checked(v: int) -> Result<int, EvalError> {
    if fits(v) {
        Ok(v)
    } else {
        Err(EvalError::Overflow)
    }
}

/// The distance of `v` from zero.
pub open spec fn magnitude(v: int) -> int {
    if v < 0 {
        -v
    } else {
        v
    }
}

/// `a` divided by `b`, rounded toward zero.
pub open spec fn quotient(a: int, b: int) -> int
    recommends
        b != 0,
{
    if (a >= 0) == (b > 0) {
        magnitude(a) / magnitude(b)
    } else {
        -(magnitude(a) / magnitude(b))
    }
}

/// `base` multiplied by itself `exp` times.
pub open spec fn power(base: int, exp: nat) -> int
    decreases exp,
{
    if exp == 0 {
        1
    } else {
        base * power(base, (exp - 1) as nat)
    }
}

/// 1 for true and 0 for false.
pub open spec fn truth(b: bool) -> int {
    if b {
        1
    } else {
        0
    }
}

/// The value of the binary operator `op` on the values `a` and `b`.
pub open spec fn apply_binary(op: OP, a: int, b: int) -> Result<int, EvalError> {
    match op {
        OP::PLUS => checked(a + b),
        OP::MINUS => checked(a - b),
        OP::MULT => checked(a * b),
        OP::DIV => if b == 0 {
            Err(EvalError::DivisionByZero)
        } else {
            checked(quotient(a, b))
        },
        OP::POW => if b < 0 {
            Err(EvalError::NegativeExponent)
        } else {
            checked(power(a, b as nat))
        },
        OP::EQUALITY => Ok(truth(a == b)),
        OP::GREATER => Ok(truth(a > b)),
        OP::LESS => Ok(truth(a < b)),
        OP::GEQ => Ok(truth(a >= b)),
        OP::LEQ => Ok(truth(a <= b)),
    }
}

/// The value of an expression, or the first failure met when its parts are
/// evaluated from left to right. Of a conditional the condition is evaluated
/// and then one branch only: the first if the condition is 1, the second if it
/// is anything else. A failure in the other branch is never met.
pub open spec fn evaluate(e: E) -> Result<int, EvalError>
    decreases e,
{
    match e {
        E::LITERAL(v) => checked(v as int),
        E::PAREN(inner) => evaluate(*inner),
        E::UNARY(op, operand) => match op {
            OP::PLUS => evaluate(*operand),
            OP::MINUS => match evaluate(*operand) {
                Ok(a) => checked(-a),
                Err(failure) => Err(failure),
            },
            _ => Err(EvalError::UndefinedOperation),
        },
        E::BINARY(left, op, right) => match evaluate(*left) {
            Ok(a) => match evaluate(*right) {
                Ok(b) => apply_binary(op, a, b),
                Err(failure) => Err(failure),
            },
            Err(failure) => Err(failure),
        },
        E::IF(cond, then, otherwise) => match evaluate(*cond) {
            Ok(c) => if c == 1 {
                evaluate(*then)
            } else {
                evaluate(*otherwise)
            },
            Err(failure) => Err(failure),
        },
    }
}

/// What [`resolve`] returns for an outcome of [`evaluate`].
pub open spec fn yields(r: Result<i32, EvalError>, outcome: Result<int, EvalError>) -> bool {
    match outcome {
        Ok(v) => r matches Ok(x) && x as int == v,
        Err(failure) => r matches Err(f) && f == failure,
    }
}

/// The product of two magnitudes is the magnitude of the product.
proof fn lemma_magnitude_of_product(a: int, b: int)
    ensures
        magnitude(a * b) == magnitude(a) * magnitude(b),
{
    assert(magnitude(a * b) == magnitude(a) * magnitude(b)) by (nonlinear_arith)
        requires
            magnitude(a) == if a < 0 {
                -a
            } else {
                a
            },
            magnitude(b) == if b < 0 {
                -b
            } else {
                b
            },
            magnitude(a * b) == if a * b < 0 {
                -(a * b)
            } else {
                a * b
            },
    ;
}

/// A power of a base of magnitude 2 or more is not zero, and each higher
/// power is at least twice as far from zero.
proof fn lemma_power_grows(base: int, low: nat, high: nat)
    requires
        magnitude(base) >= 2,
        low < high,
    ensures
        magnitude(power(base, low)) >= 1,
        magnitude(power(base, high)) >= 2 * magnitude(power(base, low)),
    decreases high,
{
    let below = power(base, (high - 1) as nat);
    lemma_magnitude_of_product(base, below);
    if low == high - 1 {
        if low > 0 {
            lemma_power_grows(base, (low - 1) as nat, low);
        }
        assert(magnitude(base) * magnitude(below) >= 2 * magnitude(below)) by (nonlinear_arith)
            requires
                magnitude(base) >= 2,
                magnitude(below) >= 0,
        ;
    } else {
        lemma_power_grows(base, low, (high - 1) as nat);
        assert(magnitude(base) * magnitude(below) >= 2 * magnitude(below)) by (nonlinear_arith)
            requires
                magnitude(base) >= 2,
                magnitude(below) >= 0,
        ;
    }
}

/// The powers of 0, 1 and -1.
proof fn lemma_power_of_unit(exp: nat)
    ensures
        power(0, exp) == truth(exp == 0),
        power(1, exp) == 1,
        power(-1, exp) == (if exp % 2 == 0 {
            1int
        } else {
            -1int
        }),
    decreases exp,
{
    if exp > 0 {
        lemma_power_of_unit((exp - 1) as nat);
    }
}

/// `base` to the power `exp`, where the power fits in `i32`.
fn raise(base: i32, exp: u32) -> (r: Result<i32, EvalError>)
    ensures
        yields(r, checked(power(base as int, exp as nat))),
{
    if base == 0 || base == 1 || base == -1 {
        proof {
            lemma_power_of_unit(exp as nat);
        }
        return if exp == 0 {
            Ok(1)
        } else if base == -1 && exp % 2 == 1 {
            Ok(-1)
        } else if base == 0 {
            Ok(0)
        } else {
            Ok(1)
        };
    }
    let mut acc: i32 = 1;
    let mut done: u32 = 0;
    while done < exp
        invariant
            done <= exp,
            magnitude(base as int) >= 2,
            acc as int == power(base as int, done as nat),
        decreases exp - done,
    {
        assert(i32::MIN * i32::MIN >= acc * base >= i32::MIN * i32::MAX) by (nonlinear_arith)
            requires
                i32::MIN <= acc <= i32::MAX,
                i32::MIN <= base <= i32::MAX,
        ;
        let next: i64 = (acc as i64) * (base as i64);
        assert(next as int == power(base as int, (done + 1) as nat)) by {
            assert(base * acc == acc * base) by (nonlinear_arith);
        }
        if next < -2147483648 || next > 2147483647 {
            proof {
                if done + 1 < exp {
                    lemma_power_grows(base as int, (done + 1) as nat, exp as nat);
                }
            }
            return Err(EvalError::Overflow);
        }
        acc = next as i32;
        done = done + 1;
    }
    Ok(acc)
}

/// `a` divided by `b`, rounded toward zero, where `b` is not zero and the
/// quotient fits in `i32`.
fn divide(a: i32, b: i32) -> (r: Result<i32, EvalError>)
    requires
        b != 0,
    ensures
        yields(r, checked(quotient(a as int, b as int))),
{
    let size_a: u64 = if a < 0 {
        (-(a as i64)) as u64
    } else {
        a as u64
    };
    let size_b: u64 = if b < 0 {
        (-(b as i64)) as u64
    } else {
        b as u64
    };
    let size: u64 = size_a / size_b;
    assert(size <= size_a) by (nonlinear_arith)
        requires
            size == size_a / size_b,
            size_b >= 1,
    ;
    if (a >= 0) == (b > 0) {
        if size > 2147483647 {
            Err(EvalError::Overflow)
        } else {
            Ok(size as i32)
        }
    } else {
        Ok((-(size as i64)) as i32)
    }
}

/// The value of the binary operator `op` on `a` and `b`.
fn combine(op: OP, a: i32, b: i32) -> (r: Result<i32, EvalError>)
    ensures
        yields(r, apply_binary(op, a as int, b as int)),
{
    match op {
        OP::PLUS => narrow(a as i64 + b as i64),
        OP::MINUS => narrow(a as i64 - b as i64),
        OP::MULT => {
            assert(i32::MIN * i32::MAX <= a * b <= i32::MIN * i32::MIN) by (nonlinear_arith)
                requires
                    i32::MIN <= a <= i32::MAX,
                    i32::MIN <= b <= i32::MAX,
            ;
            narrow((a as i64) * (b as i64))
        },
        OP::DIV => {
            if b == 0 {
                Err(EvalError::DivisionByZero)
            } else {
                divide(a, b)
            }
        },
        OP::POW => {
            if b < 0 {
                Err(EvalError::NegativeExponent)
            } else {
                raise(a, b as u32)
            }
        },
        OP::EQUALITY => Ok(flag(a == b)),
        OP::GREATER => Ok(flag(a > b)),
        OP::LESS => Ok(flag(a < b)),
        OP::GEQ => Ok(flag(a >= b)),
        OP::LEQ => Ok(flag(a <= b)),
    }
}

/// 1 for true and 0 for false.
fn flag(b: bool) -> (v: i32)
    ensures
        v == truth(b),
{
    if b {
        1
    } else {
        0
    }
}

/// `v` as an `i32`, if it fits.
fn narrow(v: i64) -> (r: Result<i32, EvalError>)
    ensures
        yields(r, checked(v as int)),
{
    if v < -2147483648 || v > 2147483647 {
        Err(EvalError::Overflow)
    } else {
        Ok(v as i32)
    }
}

/// Evaluates an expression tree.
///
/// Returns the value that [`evaluate`] gives, or the failure it names.
pub fn resolve(expression: E) -> (r: Result<i32, EvalError>)
    ensures
        yields(r, evaluate(expression)),
    decreases expression,
{
    match expression {
        E::LITERAL(v) => {
            if v > 2147483647 {
                Err(EvalError::Overflow)
            } else {
                Ok(v as i32)
            }
        },
        E::PAREN(inner) => resolve(*inner),
        E::UNARY(op, operand) => match op {
            OP::PLUS => resolve(*operand),
            OP::MINUS => match resolve(*operand) {
                Ok(a) => narrow(-(a as i64)),
                Err(failure) => Err(failure),
            },
            _ => Err(EvalError::UndefinedOperation),
        },
        E::BINARY(left, op, right) => {
            let a = match resolve(*left) {
                Ok(a) => a,
                Err(failure) => {
                    return Err(failure);
                },
            };
            let b = match resolve(*right) {
                Ok(b) => b,
                Err(failure) => {
                    return Err(failure);
                },
            };
            combine(op, a, b)
        },
        E::IF(cond, then, otherwise) => {
            let c = match resolve(*cond) {
                Ok(c) => c,
                Err(failure) => {
                    return Err(failure);
                },
            };
            if c == 1 {
                resolve(*then)
            } else {
                resolve(*otherwise)
            }
        },
    }
}

} // verus!

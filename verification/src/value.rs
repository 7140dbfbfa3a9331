//! The numeric domain of the evaluator.
//!
//! A quantity is an exact rational with `i64` components, or one of the
//! special results that arithmetic can produce: a signed infinity (from
//! division by zero, or when a result's reduced components no longer fit in
//! `i64`) and an undefined result for indeterminate forms such as `0/0`,
//! mirroring how such faults flow through floating-point arithmetic instead
//! of being reported as errors.

use vstd::prelude::*;
use vstd::arithmetic::div_mod::{
    lemma_fundamental_div_mod, lemma_mod_self_0, lemma_small_mod, lemma_mod_multiples_vanish,
    lemma_div_is_ordered, lemma_div_by_self, lemma_div_nonincreasing, lemma_div_pos_is_pos,
};

verus! {

/// A numeric value: an exact rational `num / den`, or a special result.
#[derive(Clone, Copy, Debug, PartialEq, Eq, Structural)]
pub enum Value {
    Finite { num: i64, den: i64 },
    PosInf,
    NegInf,
    Nan,
}

/// The largest magnitude a rational component may take.
pub open spec fn comp_max() -> int {
    i64::MAX as int
}

impl Value {
    /// A finite value keeps its denominator positive and its numerator
    /// strictly above `i64::MIN`, so that negation never overflows.
    pub open spec fn wf(self) -> bool {
        match self {
            Value::Finite { num, den } => num != i64::MIN && den >= 1,
            _ => true,
        }
    }
}

/// Greatest common divisor, by Euclid's rule.
pub open spec fn gcd(a: nat, b: nat) -> nat
    decreases b,
{
    if b == 0 {
        a
    } else {
        gcd(b, a % b)
    }
}

/// The gcd of two numbers, not both zero, is positive and divides both.
pub proof fn lemma_gcd_divides(a: nat, b: nat)
    ensures
        a > 0 || b > 0 ==> gcd(a, b) >= 1,
        a > 0 || b > 0 ==> a as int % (gcd(a, b) as int) == 0,
        a > 0 || b > 0 ==> b as int % (gcd(a, b) as int) == 0,
    decreases b,
{
    if b == 0 {
        if a > 0 {
            lemma_mod_self_0(a as int);
            lemma_small_mod(0, a);
        }
    } else {
        let g = gcd(b, a % b);
        lemma_gcd_divides(b, a % b);
        lemma_fundamental_div_mod(a as int, b as int);
        let q = a as int / b as int;
        let r = a as int % b as int;
        lemma_fundamental_div_mod(b as int, g as int);
        let k = b as int / g as int;
        assert(b as int == g as int * k);
        assert(a as int == g as int * (k * q) + r) by (nonlinear_arith)
            requires
                a as int == b as int * q + r,
                b as int == g as int * k,
        ;
        lemma_mod_multiples_vanish(k * q, r, g as int);
    }
}

/// A positive divisor of a positive number is no larger than it.
pub proof fn lemma_divisor_le(g: nat, b: nat)
    requires
        g >= 1,
        b >= 1,
        b as int % (g as int) == 0,
    ensures
        g <= b,
{
    if g > b {
        lemma_small_mod(b, g);
    }
}

/// Bring a rational `n / d` (with `d != 0`) to a positive denominator,
/// reduce it by the gcd of its components, and saturate: a reduced numerator
/// beyond `i64` becomes the signed infinity, a reduced denominator beyond
/// `i64` (an underflow: the magnitude is below any representable fraction
/// of its size) becomes zero.
pub open spec fn spec_norm(n: int, d: int) -> Value {
    let n1 = if d < 0 { -n } else { n };
    let d1 = if d < 0 { -d } else { d };
    if n1 == 0 {
        Value::Finite { num: 0, den: 1 }
    } else {
        let m = if n1 < 0 { -n1 } else { n1 };
        let g = gcd(m as nat, d1 as nat) as int;
        let m2 = m / g;
        let d2 = d1 / g;
        if m2 > comp_max() {
            if n1 < 0 {
                Value::NegInf
            } else {
                Value::PosInf
            }
        } else if d2 > comp_max() {
            Value::Finite { num: 0, den: 1 }
        } else {
            Value::Finite { num: (if n1 < 0 { -m2 } else { m2 }) as i64, den: d2 as i64 }
        }
    }
}

/// Euclid's algorithm, matching `gcd`.
fn gcd_u128(a0: u128, b0: u128) -> (g: u128)
    ensures
        g as nat == gcd(a0 as nat, b0 as nat),
{
    let mut a = a0;
    let mut b = b0;
    while b != 0
        invariant
            gcd(a as nat, b as nat) == gcd(a0 as nat, b0 as nat),
        decreases b,
    {
        let t = a % b;
        a = b;
        b = t;
    }
    a
}

/// Normalization of a rational held in `i128` intermediates.
fn norm128(n0: i128, d0: i128) -> (v: Value)
    requires
        d0 != 0,
        n0 != i128::MIN,
        d0 != i128::MIN,
    ensures
        v == spec_norm(n0 as int, d0 as int),
        v.wf(),
{
    let n: i128 = if d0 < 0 { -n0 } else { n0 };
    let d: i128 = if d0 < 0 { -d0 } else { d0 };
    if n == 0 {
        return Value::Finite { num: 0, den: 1 };
    }
    let neg = n < 0;
    let m: u128 = if n < 0 { (-n) as u128 } else { n as u128 };
    let du: u128 = d as u128;
    proof {
        lemma_gcd_divides(m as nat, du as nat);
        lemma_divisor_le(gcd(m as nat, du as nat), du as nat);
    }
    let g = gcd_u128(m, du);
    let m2 = m / g;
    let d2 = du / g;
    proof {
        lemma_div_is_ordered(g as int, du as int, g as int);
        lemma_div_by_self(g as int);
    }
    if m2 > i64::MAX as u128 {
        if neg {
            Value::NegInf
        } else {
            Value::PosInf
        }
    } else if d2 > i64::MAX as u128 {
        Value::Finite { num: 0, den: 1 }
    } else {
        let num = if neg {
            -(m2 as i64)
        } else {
            m2 as i64
        };
        Value::Finite { num, den: d2 as i64 }
    }
}

pub open spec fn spec_zero() -> Value {
    Value::Finite { num: 0, den: 1 }
}

/// Two values denote the same quantity: finite rationals are compared by
/// cross-multiplication, special results by identity.
pub open spec fn val_sim(a: Value, b: Value) -> bool {
    match (a, b) {
        (Value::Finite { num: n1, den: d1 }, Value::Finite { num: n2, den: d2 }) => n1 * d2 == n2
            * d1,
        _ => a == b,
    }
}

/// Normalizing a rational whose components already lie within range loses
/// nothing: the result is finite and denotes exactly `n / d`.
pub proof fn lemma_norm_exact(n: int, d: int)
    requires
        1 <= d <= comp_max(),
        -comp_max() <= n <= comp_max(),
    ensures
        match spec_norm(n, d) {
            Value::Finite { num, den } => num * d == n * den && 1 <= den,
            _ => false,
        },
{
    if n != 0 {
        let m = if n < 0 {
            -n
        } else {
            n
        };
        let g = gcd(m as nat, d as nat) as int;
        lemma_gcd_divides(m as nat, d as nat);
        lemma_divisor_le(gcd(m as nat, d as nat), d as nat);
        lemma_divisor_le(gcd(m as nat, d as nat), m as nat);
        let m2 = m / g;
        let d2 = d / g;
        lemma_div_is_ordered(g, d, g);
        lemma_div_is_ordered(g, m, g);
        lemma_div_by_self(g);
        lemma_div_nonincreasing(m, g);
        lemma_div_nonincreasing(d, g);
        lemma_div_pos_is_pos(m, g);
        lemma_fundamental_div_mod(m, g);
        lemma_fundamental_div_mod(d, g);
        assert(m == g * m2);
        assert(d == g * d2);
        assert(m2 * d == m * d2) by (nonlinear_arith)
            requires
                m == g * m2,
                d == g * d2,
        ;
        assert(1 <= m2 && 1 <= d2);
        assert(m2 <= comp_max() && d2 <= comp_max());
        assert(m2 as i64 == m2 && d2 as i64 == d2);
        assert((-m2) as i64 == -m2);
        assert((-m2) * d == (-m) * d2) by (nonlinear_arith)
            requires
                m2 * d == m * d2,
        ;
    }
}

/// Dividing a finite value by a finite zero yields the signed infinity (or
/// the undefined result for `0/0`), never an error.
pub proof fn lemma_div_by_zero(n1: i64, d1: i64, d2: i64)
    ensures
        spec_div(Value::Finite { num: n1, den: d1 }, Value::Finite { num: 0, den: d2 })
            == (if n1 > 0 {
            Value::PosInf
        } else if n1 < 0 {
            Value::NegInf
        } else {
            Value::Nan
        }),
{
}

pub open spec fn spec_neg(a: Value) -> Value {
    match a {
        Value::Nan => Value::Nan,
        Value::PosInf => Value::NegInf,
        Value::NegInf => Value::PosInf,
        Value::Finite { num, den } => Value::Finite { num: -num as i64, den },
    }
}

pub open spec fn spec_add(a: Value, b: Value) -> Value {
    match (a, b) {
        (Value::Nan, _) => Value::Nan,
        (_, Value::Nan) => Value::Nan,
        (Value::PosInf, Value::NegInf) => Value::Nan,
        (Value::NegInf, Value::PosInf) => Value::Nan,
        (Value::PosInf, _) => Value::PosInf,
        (_, Value::PosInf) => Value::PosInf,
        (Value::NegInf, _) => Value::NegInf,
        (_, Value::NegInf) => Value::NegInf,
        (Value::Finite { num: n1, den: d1 }, Value::Finite { num: n2, den: d2 }) => spec_norm(
            n1 * d2 + n2 * d1,
            d1 * d2,
        ),
    }
}

pub open spec fn spec_sub(a: Value, b: Value) -> Value {
    spec_add(a, spec_neg(b))
}

pub open spec fn spec_mul(a: Value, b: Value) -> Value {
    match (a, b) {
        (Value::Nan, _) => Value::Nan,
        (_, Value::Nan) => Value::Nan,
        (Value::PosInf, Value::PosInf) => Value::PosInf,
        (Value::NegInf, Value::NegInf) => Value::PosInf,
        (Value::PosInf, Value::NegInf) => Value::NegInf,
        (Value::NegInf, Value::PosInf) => Value::NegInf,
        (Value::PosInf, Value::Finite { num, .. }) => if num == 0 {
            Value::Nan
        } else if num > 0 {
            Value::PosInf
        } else {
            Value::NegInf
        },
        (Value::Finite { num, .. }, Value::PosInf) => if num == 0 {
            Value::Nan
        } else if num > 0 {
            Value::PosInf
        } else {
            Value::NegInf
        },
        (Value::NegInf, Value::Finite { num, .. }) => if num == 0 {
            Value::Nan
        } else if num > 0 {
            Value::NegInf
        } else {
            Value::PosInf
        },
        (Value::Finite { num, .. }, Value::NegInf) => if num == 0 {
            Value::Nan
        } else if num > 0 {
            Value::NegInf
        } else {
            Value::PosInf
        },
        (Value::Finite { num: n1, den: d1 }, Value::Finite { num: n2, den: d2 }) => spec_norm(
            n1 * n2,
            d1 * d2,
        ),
    }
}

pub open spec fn spec_div(a: Value, b: Value) -> Value {
    match (a, b) {
        (Value::Nan, _) => Value::Nan,
        (_, Value::Nan) => Value::Nan,
        (Value::PosInf, Value::PosInf) => Value::Nan,
        (Value::PosInf, Value::NegInf) => Value::Nan,
        (Value::NegInf, Value::PosInf) => Value::Nan,
        (Value::NegInf, Value::NegInf) => Value::Nan,
        (Value::PosInf, Value::Finite { num, .. }) => if num >= 0 {
            Value::PosInf
        } else {
            Value::NegInf
        },
        (Value::NegInf, Value::Finite { num, .. }) => if num >= 0 {
            Value::NegInf
        } else {
            Value::PosInf
        },
        (Value::Finite { .. }, Value::PosInf) => spec_zero(),
        (Value::Finite { .. }, Value::NegInf) => spec_zero(),
        (Value::Finite { num: n1, den: d1 }, Value::Finite { num: n2, den: d2 }) => if n2 == 0 {
            if n1 == 0 {
                Value::Nan
            } else if n1 > 0 {
                Value::PosInf
            } else {
                Value::NegInf
            }
        } else {
            spec_norm(n1 * d2, d1 * n2)
        },
    }
}

impl Value {
    /// The value zero.
    pub fn zero() -> (r: Value)
        ensures
            r == spec_zero(),
            r.wf(),
    {
        Value::Finite { num: 0, den: 1 }
    }

    /// Additive inverse.
    pub fn neg(self) -> (r: Value)
        requires
            self.wf(),
        ensures
            r == spec_neg(self),
            r.wf(),
    {
        match self {
            Value::Nan => Value::Nan,
            Value::PosInf => Value::NegInf,
            Value::NegInf => Value::PosInf,
            Value::Finite { num, den } => Value::Finite { num: -num, den },
        }
    }

    /// Sum, with the special results propagated as in floating point.
    pub fn add(self, other: Value) -> (r: Value)
        requires
            self.wf(),
            other.wf(),
        ensures
            r == spec_add(self, other),
            r.wf(),
    {
        match (self, other) {
            (Value::Nan, _) => Value::Nan,
            (_, Value::Nan) => Value::Nan,
            (Value::PosInf, Value::NegInf) => Value::Nan,
            (Value::NegInf, Value::PosInf) => Value::Nan,
            (Value::PosInf, _) => Value::PosInf,
            (_, Value::PosInf) => Value::PosInf,
            (Value::NegInf, _) => Value::NegInf,
            (_, Value::NegInf) => Value::NegInf,
            (Value::Finite { num: n1, den: d1 }, Value::Finite { num: n2, den: d2 }) => {
                let a = n1 as i128;
                let b = d1 as i128;
                let c = n2 as i128;
                let e = d2 as i128;
                proof {
                    let m = i64::MAX as int;
                    assert((-(m * m) <= a as int * e as int <= m * m) && (-(m * m) <= c as int
                        * b as int <= m * m) && (1 <= b as int * e as int <= m * m))
                        by (nonlinear_arith)
                        requires
                            -m <= a as int <= m,
                            1 <= b as int <= m,
                            -m <= c as int <= m,
                            1 <= e as int <= m,
                    ;
                }
                norm128(a * e + c * b, b * e)
            },
        }
    }

    /// Difference, defined as the sum with the negated right operand.
    pub fn sub(self, other: Value) -> (r: Value)
        requires
            self.wf(),
            other.wf(),
        ensures
            r == spec_sub(self, other),
            r.wf(),
    {
        self.add(other.neg())
    }

    /// Product, with the special results propagated as in floating point.
    pub fn mul(self, other: Value) -> (r: Value)
        requires
            self.wf(),
            other.wf(),
        ensures
            r == spec_mul(self, other),
            r.wf(),
    {
        match (self, other) {
            (Value::Nan, _) => Value::Nan,
            (_, Value::Nan) => Value::Nan,
            (Value::PosInf, Value::PosInf) => Value::PosInf,
            (Value::NegInf, Value::NegInf) => Value::PosInf,
            (Value::PosInf, Value::NegInf) => Value::NegInf,
            (Value::NegInf, Value::PosInf) => Value::NegInf,
            (Value::PosInf, Value::Finite { num, .. }) => if num == 0 {
                Value::Nan
            } else if num > 0 {
                Value::PosInf
            } else {
                Value::NegInf
            },
            (Value::Finite { num, .. }, Value::PosInf) => if num == 0 {
                Value::Nan
            } else if num > 0 {
                Value::PosInf
            } else {
                Value::NegInf
            },
            (Value::NegInf, Value::Finite { num, .. }) => if num == 0 {
                Value::Nan
            } else if num > 0 {
                Value::NegInf
            } else {
                Value::PosInf
            },
            (Value::Finite { num, .. }, Value::NegInf) => if num == 0 {
                Value::Nan
            } else if num > 0 {
                Value::NegInf
            } else {
                Value::PosInf
            },
            (Value::Finite { num: n1, den: d1 }, Value::Finite { num: n2, den: d2 }) => {
                let a = n1 as i128;
                let b = d1 as i128;
                let c = n2 as i128;
                let e = d2 as i128;
                proof {
                    let m = i64::MAX as int;
                    assert((-(m * m) <= a as int * c as int <= m * m) && (1 <= b as int
                        * e as int <= m * m)) by (nonlinear_arith)
                        requires
                            -m <= a as int <= m,
                            1 <= b as int <= m,
                            -m <= c as int <= m,
                            1 <= e as int <= m,
                    ;
                }
                norm128(a * c, b * e)
            },
        }
    }

    /// Quotient. Division of a nonzero finite value by zero yields the
    /// signed infinity; `0/0` and `inf/inf` yield the undefined result.
    pub fn div(self, other: Value) -> (r: Value)
        requires
            self.wf(),
            other.wf(),
        ensures
            r == spec_div(self, other),
            r.wf(),
    {
        match (self, other) {
            (Value::Nan, _) => Value::Nan,
            (_, Value::Nan) => Value::Nan,
            (Value::PosInf, Value::PosInf) => Value::Nan,
            (Value::PosInf, Value::NegInf) => Value::Nan,
            (Value::NegInf, Value::PosInf) => Value::Nan,
            (Value::NegInf, Value::NegInf) => Value::Nan,
            (Value::PosInf, Value::Finite { num, .. }) => if num >= 0 {
                Value::PosInf
            } else {
                Value::NegInf
            },
            (Value::NegInf, Value::Finite { num, .. }) => if num >= 0 {
                Value::NegInf
            } else {
                Value::PosInf
            },
            (Value::Finite { .. }, Value::PosInf) => Value::Finite { num: 0, den: 1 },
            (Value::Finite { .. }, Value::NegInf) => Value::Finite { num: 0, den: 1 },
            (Value::Finite { num: n1, den: d1 }, Value::Finite { num: n2, den: d2 }) => {
                if n2 == 0 {
                    if n1 == 0 {
                        Value::Nan
                    } else if n1 > 0 {
                        Value::PosInf
                    } else {
                        Value::NegInf
                    }
                } else {
                    let a = n1 as i128;
                    let b = d1 as i128;
                    let c = n2 as i128;
                    let e = d2 as i128;
                    proof {
                        let m = i64::MAX as int;
                        assert((-(m * m) <= a as int * e as int <= m * m) && (-(m * m) <= b as int
                            * c as int <= m * m) && b as int * c as int != 0) by (nonlinear_arith)
                            requires
                                -m <= a as int <= m,
                                1 <= b as int <= m,
                                -m <= c as int <= m,
                                c as int != 0,
                                1 <= e as int <= m,
                        ;
                    }
                    norm128(a * e, b * c)
                }
            },
        }
    }
}

} // verus!

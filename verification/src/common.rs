//! The polymorphic numeric result: an exact integer or an exact fraction,
//! with exactly integral fractions always collapsed to integers.

use vstd::prelude::*;

verus! {

use crate::big_num::BigNum;
use crate::big_num::div_trunc;
use crate::big_num::int_abs;
use crate::big_num::lemma_divides_rem_trunc;
use crate::big_num::rem_trunc;
use crate::error::EvalError;
use crate::frac::Frac;
use crate::frac::Rat;
use crate::frac::frac_str;
use crate::frac::lemma_gcd_one;
use crate::frac::lemma_rat_norm_of_reduced;
use crate::frac::lemma_rat_norm_props;
use crate::frac::lemma_rat_norm_unique;
use crate::frac::rat_add;
use crate::frac::rat_div;
use crate::frac::rat_int;
use crate::frac::rat_mul;
use crate::frac::rat_neg;
use crate::frac::rat_sub;
use crate::text::int_str;

/// A numeric result: an arbitrary-precision integer or an exact fraction.
#[derive(Debug)]
pub enum Value {
    Number(BigNum),
    Frac(Frac),
}

/// Normalizing the embedding of an integer changes nothing.
proof fn lemma_rat_norm_int(v: int)
    ensures
        crate::frac::rat_norm(v, 1) == rat_int(v),
{
    lemma_gcd_one(int_abs(v) as nat);
    lemma_rat_norm_of_reduced(rat_int(v));
}

impl Value {
    /// The rational a value stands for.
    pub open spec fn rat(self) -> Rat {
        match self {
            Value::Number(n) => rat_int(n@),
            Value::Frac(f) => f.rat(),
        }
    }

    /// The invariant of every value this module returns: a fraction kept as a
    /// fraction is never exactly integral.
    pub open spec fn wf(self) -> bool {
        match self {
            Value::Number(_) => true,
            Value::Frac(f) => f.rat().den != 1 && f.rat().num != 0,
        }
    }

    /// Collapses an exactly integral fraction into an integer and leaves
    /// everything else alone. Idempotent: a value that already satisfies the
    /// invariant comes back unchanged.
    pub fn simplify(self) -> (r: Value)
        ensures
            r.rat() == self.rat(),
            r.wf(),
            self.wf() ==> r == self,
    {
        match self {
            Value::Number(num) => Value::Number(num),
            Value::Frac(frac) => match frac.to_bignum() {
                Ok(num) => Value::Number(num),
                Err(_) => Value::Frac(frac),
            },
        }
    }

    /// Whether the value is zero.
    pub fn is_zero(&self) -> (r: bool)
        ensures
            r == (self.rat().num == 0),
    {
        match self {
            Value::Number(num) => num.is_zero(),
            Value::Frac(frac) => frac.is_zero(),
        }
    }

    /// The negated value.
    pub fn neg(&self) -> (r: Value)
        requires
            self.wf(),
        ensures
            r.wf(),
            r.rat() == rat_neg(self.rat()),
    {
        match self {
            Value::Number(num) => Value::Number(num.negate()),
            Value::Frac(frac) => Value::Frac(frac.neg()),
        }
    }

    /// The sum; a fraction result that is exactly integral collapses.
    pub fn add(&self, other: &Value) -> (r: Value)
        requires
            self.wf(),
            other.wf(),
        ensures
            r.wf(),
            r.rat() == rat_add(self.rat(), other.rat()),
    {
        match (self, other) {
            (Value::Number(a), Value::Number(b)) => {
                let s = a.add(b);
                proof {
                    lemma_rat_add_int(a@, b@);
                }
                Value::Number(s)
            },
            (Value::Number(a), Value::Frac(g)) => {
                let f = Frac::from_bignum(a.clone());
                Value::Frac(f.add(g)).simplify()
            },
            (Value::Frac(f), Value::Number(b)) => {
                let g = Frac::from_bignum(b.clone());
                Value::Frac(f.add(&g)).simplify()
            },
            (Value::Frac(f), Value::Frac(g)) => Value::Frac(f.add(g)).simplify(),
        }
    }

    /// The difference; a fraction result that is exactly integral collapses.
    pub fn sub(&self, other: &Value) -> (r: Value)
        requires
            self.wf(),
            other.wf(),
        ensures
            r.wf(),
            r.rat() == rat_sub(self.rat(), other.rat()),
    {
        match (self, other) {
            (Value::Number(a), Value::Number(b)) => {
                let s = a.sub(b);
                proof {
                    lemma_rat_sub_int(a@, b@);
                }
                Value::Number(s)
            },
            (Value::Number(a), Value::Frac(g)) => {
                let f = Frac::from_bignum(a.clone());
                Value::Frac(f.sub(g)).simplify()
            },
            (Value::Frac(f), Value::Number(b)) => {
                let g = Frac::from_bignum(b.clone());
                Value::Frac(f.sub(&g)).simplify()
            },
            (Value::Frac(f), Value::Frac(g)) => Value::Frac(f.sub(g)).simplify(),
        }
    }

    /// The product; a fraction result that is exactly integral collapses.
    pub fn mul(&self, other: &Value) -> (r: Value)
        requires
            self.wf(),
            other.wf(),
        ensures
            r.wf(),
            r.rat() == rat_mul(self.rat(), other.rat()),
    {
        match (self, other) {
            (Value::Number(a), Value::Number(b)) => {
                let s = a.mul(b);
                proof {
                    lemma_rat_mul_int(a@, b@);
                }
                Value::Number(s)
            },
            (Value::Number(a), Value::Frac(g)) => {
                let f = Frac::from_bignum(a.clone());
                Value::Frac(f.mul(g)).simplify()
            },
            (Value::Frac(f), Value::Number(b)) => {
                let g = Frac::from_bignum(b.clone());
                Value::Frac(f.mul(&g)).simplify()
            },
            (Value::Frac(f), Value::Frac(g)) => Value::Frac(f.mul(g)).simplify(),
        }
    }

    /// The quotient. Two integers divide to an integer when the division is
    /// exact and promote to a reduced fraction otherwise. Fails exactly when
    /// the divisor is zero.
    pub fn div(&self, other: &Value) -> (r: Result<Value, EvalError>)
        requires
            self.wf(),
            other.wf(),
        ensures
            match r {
                Ok(v) => other.rat().num != 0 && v.wf() && v.rat() == rat_div(
                    self.rat(),
                    other.rat(),
                ),
                Err(e) => other.rat().num == 0 && e == EvalError::DivisionByZero,
            },
    {
        match (self, other) {
            (Value::Number(a), Value::Number(b)) => {
                match a.rem(b) {
                    Err(e) => Err(e),
                    Ok(m) => {
                        proof {
                            lemma_rat_div_int(a@, b@);
                        }
                        if m.is_zero() {
                            let q = a.div_nonzero(b);
                            proof {
                                lemma_rat_div_exact(a@, b@);
                            }
                            Ok(Value::Number(q))
                        } else {
                            let f = match Frac::new(a.clone(), b.clone()) {
                                Ok(f) => f,
                                Err(e) => {
                                    proof {
                                        assert(false);
                                    }
                                    return Err(e);
                                },
                            };
                            proof {
                                lemma_rat_div_inexact(a@, b@);
                            }
                            Ok(Value::Frac(f))
                        }
                    },
                }
            },
            (Value::Number(a), Value::Frac(g)) => {
                let f = Frac::from_bignum(a.clone());
                match f.div(g) {
                    Err(e) => Err(e),
                    Ok(q) => Ok(Value::Frac(q).simplify()),
                }
            },
            (Value::Frac(f), Value::Number(b)) => {
                let g = Frac::from_bignum(b.clone());
                match f.div(&g) {
                    Err(e) => Err(e),
                    Ok(q) => Ok(Value::Frac(q).simplify()),
                }
            },
            (Value::Frac(f), Value::Frac(g)) => match f.div(g) {
                Err(e) => Err(e),
                Ok(q) => Ok(Value::Frac(q).simplify()),
            },
        }
    }

    /// The canonical textual rendering: an integer as its decimal digits, a
    /// fraction as "numerator/denominator".
    pub fn to_string(&self) -> (r: String)
        requires
            self.wf(),
        ensures
            r@ == if self.rat().den == 1 {
                int_str(self.rat().num)
            } else {
                frac_str(self.rat())
            },
    {
        match self {
            Value::Number(num) => num.to_string(),
            Value::Frac(frac) => frac.to_string(),
        }
    }
}

/// Adding the embeddings of two integers embeds their sum.
proof fn lemma_rat_add_int(a: int, b: int)
    ensures
        rat_add(rat_int(a), rat_int(b)) == rat_int(a + b),
{
    assert(a * 1 == a) by (nonlinear_arith);
    assert(b * 1 == b) by (nonlinear_arith);
    assert(1int * 1int == 1int) by (nonlinear_arith);
    assert(rat_add(rat_int(a), rat_int(b)) == crate::frac::rat_norm(a * 1 + b * 1, 1int * 1int));
    assert(a * 1 + b * 1 == a + b);
    lemma_rat_norm_int(a + b);
    assert(crate::frac::rat_norm(a + b, 1) == rat_int(a + b));
}

/// Subtracting the embeddings of two integers embeds their difference.
proof fn lemma_rat_sub_int(a: int, b: int)
    ensures
        rat_sub(rat_int(a), rat_int(b)) == rat_int(a - b),
{
    assert(a * 1 == a) by (nonlinear_arith);
    assert(b * 1 == b) by (nonlinear_arith);
    assert(rat_sub(rat_int(a), rat_int(b)) == crate::frac::rat_norm(a * 1 - b * 1, 1int * 1int));
    assert(1int * 1int == 1int) by (nonlinear_arith);
    lemma_rat_norm_int(a - b);
    assert(crate::frac::rat_norm(a - b, 1) == rat_int(a - b));
}

/// Multiplying the embeddings of two integers embeds their product.
proof fn lemma_rat_mul_int(a: int, b: int)
    ensures
        rat_mul(rat_int(a), rat_int(b)) == rat_int(a * b),
{
    assert(rat_mul(rat_int(a), rat_int(b)) == crate::frac::rat_norm(a * b, 1int * 1int));
    assert(1int * 1int == 1int) by (nonlinear_arith);
    lemma_rat_norm_int(a * b);
    assert(crate::frac::rat_norm(a * b, 1) == rat_int(a * b));
}

/// Dividing the embeddings of two integers normalizes their quotient.
proof fn lemma_rat_div_int(a: int, b: int)
    ensures
        rat_div(rat_int(a), rat_int(b)) == crate::frac::rat_norm(a, b),
{
    assert(a * 1 == a) by (nonlinear_arith);
    assert(1 * b == b) by (nonlinear_arith);
}

/// An exact integer quotient is the normal form of the fraction.
proof fn lemma_rat_div_exact(a: int, b: int)
    requires
        b != 0,
        rem_trunc(a, b) == 0,
    ensures
        crate::frac::rat_norm(a, b) == rat_int(div_trunc(a, b)),
{
    let q = div_trunc(a, b);
    assert(a == b * q);
    assert(a * 1 == q * b) by (nonlinear_arith)
        requires a == b * q;
    lemma_rat_norm_unique(a, b, q, 1);
    lemma_rat_norm_int(q);
}

/// An inexact integer quotient normalizes to a proper fraction: neither the
/// denominator one nor the numerator zero.
proof fn lemma_rat_div_inexact(a: int, b: int)
    requires
        b != 0,
        rem_trunc(a, b) != 0,
    ensures
        crate::frac::rat_norm(a, b).den != 1,
        crate::frac::rat_norm(a, b).num != 0,
{
    let x = crate::frac::rat_norm(a, b);
    lemma_rat_norm_props(a, b);
    if x.den == 1 {
        assert(x.num * b == a * 1);
        assert(a == b * x.num) by (nonlinear_arith)
            requires x.num * b == a * 1;
        lemma_divides_rem_trunc(a, b, x.num);
    }
    if x.num == 0 {
        assert(x.num * b == a * x.den);
        assert(a == 0) by (nonlinear_arith)
            requires
                0 == a * x.den,
                x.den > 0,
        ;
        assert(a == b * 0) by (nonlinear_arith)
            requires a == 0;
        lemma_divides_rem_trunc(a, b, 0);
    }
}

impl Clone for Value {
    /// An identical copy of the value.
    fn clone(&self) -> (r: Self)
        ensures
            r.rat() == self.rat(),
            r.wf() == self.wf(),
            r is Number <==> self is Number,
    {
        match self {
            Value::Number(num) => Value::Number(num.clone()),
            Value::Frac(frac) => Value::Frac(frac.clone()),
        }
    }
}

impl PartialEq for Value {
    /// Equality of kind and value: two integers or two fractions standing for
    /// the same rational.
    fn eq(&self, other: &Value) -> (r: bool)
    {
        match (self, other) {
            (Value::Number(a), Value::Number(b)) => a == b,
            (Value::Frac(f), Value::Frac(g)) => f == g,
            _ => false,
        }
    }
}

impl vstd::std_specs::cmp::PartialEqSpecImpl for Value {
    open spec fn obeys_eq_spec() -> bool {
        true
    }

    open spec fn eq_spec(&self, other: &Value) -> bool {
        match (self, other) {
            (Value::Number(a), Value::Number(b)) => a@ == b@,
            (Value::Frac(f), Value::Frac(g)) => f.rat() == g.rat(),
            _ => false,
        }
    }
}

} // verus!

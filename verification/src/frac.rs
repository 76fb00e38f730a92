//! Exact rational numbers: pairs of big integers kept in lowest terms with a
//! positive denominator.

use vstd::prelude::*;

verus! {

use crate::big_num::BigNum;
use crate::big_num::div_trunc;
use crate::error::EvalError;
use crate::text::int_str;
use crate::text::int_literal_value;
use crate::text::is_int_literal;
use crate::text::lemma_int_str_no_slash;
use crate::text::lemma_int_str_roundtrip;
use crate::error::LiteralKind;
use vstd::string::StrSliceExecFns;
use vstd::string::StringExecFns;
use crate::big_num::gcd_nat;
use crate::big_num::int_abs;
use crate::big_num::lemma_gcd_pos;
use crate::big_num::lemma_gcd_reduce;
use crate::big_num::lemma_gcd_scale;
use vstd::arithmetic::div_mod::lemma_div_multiples_vanish;
use vstd::arithmetic::mul::lemma_mul_equality_converse;

/// A rational number, as contracts speak of it: a numerator and denominator
/// pair of unbounded integers.
pub struct Rat {
    pub num: int,
    pub den: int,
}

/// A rational in canonical form: positive denominator, numerator and
/// denominator coprime.
pub open spec fn rat_reduced(x: Rat) -> bool {
    &&& x.den > 0
    &&& gcd_nat(int_abs(x.num) as nat, x.den as nat) == 1
}

/// The canonical form of the fraction `n / d`: signs moved to the numerator,
/// both parts divided by their greatest common divisor.
pub open spec fn rat_norm(n: int, d: int) -> Rat
    recommends
        d != 0,
{
    let n2 = if d < 0 {
        -n
    } else {
        n
    };
    let d2 = if d < 0 {
        -d
    } else {
        d
    };
    let g = gcd_nat(int_abs(n2) as nat, d2 as nat) as int;
    Rat { num: n2 / g, den: d2 / g }
}

/// The textual rendering of a rational: numerator, slash, denominator.
pub open spec fn frac_str(x: Rat) -> Seq<char> {
    crate::text::int_str(x.num) + seq!['/'] + crate::text::int_str(x.den)
}

/// The rational an integer stands for.
pub open spec fn rat_int(v: int) -> Rat {
    Rat { num: v, den: 1 }
}

pub open spec fn rat_neg(x: Rat) -> Rat {
    Rat { num: -x.num, den: x.den }
}

pub open spec fn rat_add(x: Rat, y: Rat) -> Rat {
    rat_norm(x.num * y.den + y.num * x.den, x.den * y.den)
}

pub open spec fn rat_sub(x: Rat, y: Rat) -> Rat {
    rat_norm(x.num * y.den - y.num * x.den, x.den * y.den)
}

pub open spec fn rat_mul(x: Rat, y: Rat) -> Rat {
    rat_norm(x.num * y.num, x.den * y.den)
}

pub open spec fn rat_div(x: Rat, y: Rat) -> Rat
    recommends
        y.num != 0,
{
    rat_norm(x.num * y.den, x.den * y.num)
}

/// Normalizing produces a reduced rational that stands for the same
/// fraction: the cross products with the input agree.
pub proof fn lemma_rat_norm_props(n: int, d: int)
    requires
        d != 0,
    ensures
        rat_reduced(rat_norm(n, d)),
        rat_norm(n, d).num * d == n * rat_norm(n, d).den,
        n == 0 ==> rat_norm(n, d) == rat_int(0),
{
    let n2: int = if d < 0 {
        -n
    } else {
        n
    };
    let d2: int = if d < 0 {
        -d
    } else {
        d
    };
    let an = int_abs(n2) as nat;
    let bd = d2 as nat;
    let g = gcd_nat(an, bd) as int;
    lemma_gcd_pos(an, bd);
    lemma_gcd_reduce(an, bd);
    let ka = an as int / g;
    let kd = bd as int / g;
    assert(g * ka == an);
    assert(g * kd == bd);
    assert(kd >= 1) by (nonlinear_arith)
        requires
            g * kd == bd,
            bd >= 1,
            g >= 1,
            kd >= 0,
    ;
    assert(d2 / g == kd);
    if n2 >= 0 {
        assert(n2 / g == ka);
        assert(int_abs(n2 / g) == ka);
    } else {
        assert(n2 == g * (-ka)) by (nonlinear_arith)
            requires
                g * ka == -n2,
        ;
        lemma_div_multiples_vanish(-ka, g);
        assert(n2 / g == -ka);
        assert(int_abs(n2 / g) == ka);
    }
    assert(gcd_nat(int_abs(n2 / g) as nat, kd as nat) == 1);
    // The cross products agree: (n2/g) * d2 == n2 * (d2/g), and the sign
    // flip, applied to both parts, cancels in the products.
    let nn = n2 / g;
    assert(nn * d2 == n2 * kd) by (nonlinear_arith)
        requires
            n2 == g * nn,
            d2 == g * kd,
    ;
    if d < 0 {
        assert(nn * d == (-n2) * kd) by (nonlinear_arith)
            requires
                nn * d2 == n2 * kd,
                d2 == -d,
        ;
        assert((-n2) * kd == n * kd) by (nonlinear_arith)
            requires
                n2 == -n,
        ;
    }
    if n == 0 {
        assert(n2 == 0);
        assert(int_abs(n2) == 0);
        assert(gcd_nat(0, bd) == gcd_nat(bd, 0)) by {
            assert(0nat % bd == 0) by (nonlinear_arith)
                requires bd >= 1;
        }
        assert(g == bd);
        assert(n2 / g == 0) by (nonlinear_arith)
            requires
                n2 == 0,
                g >= 1,
        ;
        assert(bd as int / g == 1) by {
            assert(g * 1 == bd as int) by (nonlinear_arith)
                requires g == bd as int;
            lemma_div_multiples_vanish(1, g);
        }
    }
}

/// Two reduced rationals with equal cross products are the same pair:
/// canonical form is unique.
pub proof fn lemma_reduced_cross_eq(x: Rat, y: Rat)
    requires
        rat_reduced(x),
        rat_reduced(y),
        x.num * y.den == y.num * x.den,
    ensures
        x == y,
{
    lemma_abs_mul_pos(x.num, y.den);
    lemma_abs_mul_pos(y.num, x.den);
    let pn = int_abs(x.num) as nat;
    let qn = int_abs(y.num) as nat;
    let pd = x.den as nat;
    let qd = y.den as nat;
    assert(pn * qd == qn * pd);
    lemma_gcd_scale(qd, pn, pd);
    lemma_gcd_scale(pd, qn, qd);
    assert(gcd_nat(qd * pn, qd * pd) == qd * gcd_nat(pn, pd));
    assert(gcd_nat(pd * qn, pd * qd) == pd * gcd_nat(qn, qd));
    assert(qd * pn == pd * qn) by (nonlinear_arith)
        requires pn * qd == qn * pd;
    assert(qd * pd == pd * qd) by (nonlinear_arith);
    assert(qd * gcd_nat(pn, pd) == qd) by (nonlinear_arith)
        requires gcd_nat(pn, pd) == 1;
    assert(pd * gcd_nat(qn, qd) == pd) by (nonlinear_arith)
        requires gcd_nat(qn, qd) == 1;
    assert(gcd_nat(qd * pn, qd * pd) == gcd_nat(pd * qn, pd * qd));
    assert(pd == qd);
    assert(x.den == y.den);
    assert(x.den * x.num == x.den * y.num) by (nonlinear_arith)
        requires
            x.num * y.den == y.num * x.den,
            x.den == y.den,
    ;
    lemma_mul_equality_converse(x.den, x.num, y.num);
}

/// The magnitude of a product with a positive factor.
proof fn lemma_abs_mul_pos(x: int, d: int)
    requires
        d > 0,
    ensures
        int_abs(x * d) == int_abs(x) * d,
{
    if x >= 0 {
        assert(x * d >= 0) by (nonlinear_arith)
            requires
                x >= 0,
                d > 0,
        ;
    } else {
        assert(x * d < 0) by (nonlinear_arith)
            requires
                x < 0,
                d > 0,
        ;
        assert(-(x * d) == (-x) * d) by (nonlinear_arith);
    }
}

/// Normalizing a reduced rational changes nothing.
pub proof fn lemma_rat_norm_of_reduced(x: Rat)
    requires
        rat_reduced(x),
    ensures
        rat_norm(x.num, x.den) == x,
{
    lemma_rat_norm_props(x.num, x.den);
    let y = rat_norm(x.num, x.den);
    assert(y.num * x.den == x.num * y.den);
    lemma_reduced_cross_eq(y, x);
}

/// Fractions of equal value normalize to the same reduced pair.
pub proof fn lemma_rat_norm_unique(a: int, b: int, c: int, d: int)
    requires
        b != 0,
        d != 0,
        a * d == c * b,
    ensures
        rat_norm(a, b) == rat_norm(c, d),
{
    lemma_rat_norm_props(a, b);
    lemma_rat_norm_props(c, d);
    let x = rat_norm(a, b);
    let y = rat_norm(c, d);
    let m = b * d;
    let cb = c * b;
    assert(x.num * m == cb * x.den) by (nonlinear_arith)
        requires
            m == b * d,
            cb == c * b,
            x.num * b == a * x.den,
            a * d == c * b,
    ;
    assert(y.num * m == cb * y.den) by (nonlinear_arith)
        requires
            m == b * d,
            cb == c * b,
            y.num * d == c * y.den,
    ;
    assert(m != 0) by (nonlinear_arith)
        requires
            m == b * d,
            b != 0,
            d != 0,
    ;
    assert(m * (x.num * y.den) == m * (y.num * x.den)) by (nonlinear_arith)
        requires
            x.num * m == cb * x.den,
            y.num * m == cb * y.den,
    ;
    lemma_mul_equality_converse(m, x.num * y.den, y.num * x.den);
    lemma_reduced_cross_eq(x, y);
}

/// Exact division of a signed integer by a positive divisor of its
/// magnitude.
proof fn lemma_exact_div_signed(x: int, g: int, k: int)
    requires
        g >= 1,
        int_abs(x) == g * k,
    ensures
        k >= 0,
        x / g == if x >= 0 {
            k
        } else {
            -k
        },
{
    assert(k >= 0) by (nonlinear_arith)
        requires
            g * k >= 0,
            g >= 1,
    ;
    lemma_div_multiples_vanish(k, g);
    if x < 0 {
        assert(x == g * (-k)) by (nonlinear_arith)
            requires g * k == -x;
        lemma_div_multiples_vanish(-k, g);
    }
}

/// One is coprime to everything.
pub proof fn lemma_gcd_one(a: nat)
    ensures
        gcd_nat(a, 1) == 1,
{
    assert(a % 1 == 0) by (nonlinear_arith);
    assert(gcd_nat(a, 1) == gcd_nat(1, a % 1));
    assert(gcd_nat(1, 0) == 1);
}

/// The greatest common divisor of zero and a positive number is that number.
pub proof fn lemma_gcd_zero_left(d: nat)
    requires
        d > 0,
    ensures
        gcd_nat(0, d) == d,
{
    assert(0nat % d == 0) by (nonlinear_arith)
        requires d > 0;
    assert(gcd_nat(0, d) == gcd_nat(d, 0));
}

/// An exact rational: a numerator and denominator pair of big integers,
/// always kept in lowest terms with a positive denominator.
#[derive(Debug)]
pub struct Frac {
    numerator: BigNum,
    denominator: BigNum,
}

/// Conversion into a fraction in canonical form.
pub trait IntoFrac {
    /// The rational the value stands for.
    spec fn frac_model(&self) -> Rat;

    /// The value as a canonical fraction.
    fn to_frac(self) -> (r: Frac)
        ensures
            r.rat() == self.frac_model(),
    ;
}

impl Frac {
    #[verifier::type_invariant]
    spec fn well_formed(self) -> bool {
        rat_reduced(self.rat())
    }

    /// The rational this fraction stands for.
    pub closed spec fn rat(self) -> Rat {
        Rat { num: self.numerator@, den: self.denominator@ }
    }

    /// Builds the canonical fraction numerator/denominator; the denominator
    /// may not be zero.
    fn normalized(numerator: BigNum, denominator: BigNum) -> (r: Frac)
        requires
            denominator@ != 0,
        ensures
            r.rat() == rat_norm(numerator@, denominator@),
            rat_reduced(r.rat()),
    {
        let ghost nv = numerator@;
        let ghost dv = denominator@;
        let g = numerator.gcd_nonzero(&denominator);
        let n1 = numerator.div_nonzero(&g);
        let d1 = denominator.div_nonzero(&g);
        proof {
            lemma_rat_norm_props(nv, dv);
            let an = int_abs(nv) as nat;
            let ad = int_abs(dv) as nat;
            lemma_gcd_pos(an, ad);
            lemma_gcd_reduce(an, ad);
            let gv = gcd_nat(an, ad) as int;
            let kn = an as int / gv;
            let kd = ad as int / gv;
            lemma_exact_div_signed(nv, gv, kn);
            lemma_exact_div_signed(dv, gv, kd);
            assert(kd >= 1) by (nonlinear_arith)
                requires
                    gv * kd == ad,
                    ad >= 1,
                    gv >= 1,
                    kd >= 0,
            ;
            let n2: int = if dv < 0 {
                -nv
            } else {
                nv
            };
            assert(int_abs(n2) == int_abs(nv));
            lemma_exact_div_signed(n2, gv, kn);
            let d2: int = if dv < 0 {
                -dv
            } else {
                dv
            };
            assert(int_abs(d2) == int_abs(dv));
            lemma_exact_div_signed(d2, gv, kd);
            assert(n1@ == div_trunc(nv, gv));
            assert(d1@ == div_trunc(dv, gv));
        }
        if d1.is_negative() {
            let r = Frac { numerator: n1.negate(), denominator: d1.negate() };
            r
        } else {
            let r = Frac { numerator: n1, denominator: d1 };
            r
        }
    }

    /// Builds the fraction numerator/denominator in canonical form: reduced
    /// to lowest terms, with the denominator strictly positive. Fails exactly
    /// when the denominator is zero.
    pub fn new(numerator: BigNum, denominator: BigNum) -> (r: Result<Frac, EvalError>)
        ensures
            match r {
                Ok(f) => denominator@ != 0 && f.rat() == rat_norm(numerator@, denominator@)
                    && rat_reduced(f.rat()),
                Err(e) => denominator@ == 0 && e == EvalError::DivisionByZero,
            },
    {
        if denominator.is_zero() {
            Err(EvalError::DivisionByZero)
        } else {
            Ok(Frac::normalized(numerator, denominator))
        }
    }

    /// The fraction value/1.
    pub fn from_bignum(num: BigNum) -> (r: Frac)
        ensures
            r.rat() == rat_int(num@),
            rat_reduced(r.rat()),
    {
        let ghost nv = num@;
        let one = BigNum::one();
        let f = Frac::normalized(num, one);
        proof {
            lemma_gcd_one(int_abs(nv) as nat);
            lemma_rat_norm_of_reduced(rat_int(nv));
        }
        f
    }

    /// Whether this fraction is an integer: the denominator is one (a zero
    /// numerator forces that, since the fraction is reduced).
    pub fn is_bignum(&self) -> (r: bool)
        ensures
            r == (self.rat().den == 1),
    {
        proof {
            use_type_invariant(&*self);
            if self.rat().num == 0 {
                assert(int_abs(self.rat().num) == 0);
                lemma_gcd_zero_left(self.rat().den as nat);
            }
        }
        let one = BigNum::one();
        self.denominator == one || self.numerator.is_zero()
    }

    /// The numerator, if the fraction is an integer; fails otherwise. A zero
    /// numerator never fails: in canonical form it forces denominator one.
    pub fn to_bignum(&self) -> (r: Result<BigNum, EvalError>)
        ensures
            match r {
                Ok(n) => self.rat().den == 1 && n@ == self.rat().num,
                Err(e) => self.rat().den != 1 && self.rat().num != 0 && e
                    == EvalError::NotIntegral,
            },
    {
        proof {
            use_type_invariant(&*self);
            if self.rat().num == 0 {
                assert(int_abs(self.rat().num) == 0);
                lemma_gcd_zero_left(self.rat().den as nat);
            }
        }
        if self.is_bignum() {
            Ok(self.numerator.clone())
        } else {
            Err(EvalError::NotIntegral)
        }
    }

    /// The reciprocal, in canonical form. Fails exactly when this fraction is
    /// zero.
    pub fn inverse(&self) -> (r: Result<Frac, EvalError>)
        ensures
            match r {
                Ok(f) => self.rat().num != 0 && f.rat() == rat_norm(
                    self.rat().den,
                    self.rat().num,
                ) && rat_reduced(f.rat()),
                Err(e) => self.rat().num == 0 && e == EvalError::DivisionByZero,
            },
    {
        Frac::new(self.denominator.clone(), self.numerator.clone())
    }

    /// The negated fraction; the canonical form is kept.
    pub fn neg(&self) -> (r: Frac)
        ensures
            r.rat() == rat_neg(self.rat()),
            rat_reduced(r.rat()),
    {
        proof {
            use_type_invariant(&*self);
            assert(int_abs(-self.rat().num) == int_abs(self.rat().num));
        }
        Frac { numerator: self.numerator.negate(), denominator: self.denominator.clone() }
    }

    /// The sum, in canonical form.
    pub fn add(&self, other: &Frac) -> (r: Frac)
        ensures
            r.rat() == rat_add(self.rat(), other.rat()),
            rat_reduced(r.rat()),
    {
        proof {
            use_type_invariant(&*self);
            use_type_invariant(&*other);
        }
        let n = self.numerator.mul(&other.denominator).add(&self.denominator.mul(&other.numerator));
        let d = self.denominator.mul(&other.denominator);
        proof {
            assert(d@ > 0) by (nonlinear_arith)
                requires d@ == self.rat().den * other.rat().den && self.rat().den > 0
                    && other.rat().den > 0;
            assert(self.rat().den * other.rat().num == other.rat().num * self.rat().den)
                by (nonlinear_arith);
        }
        Frac::normalized(n, d)
    }

    /// The difference, computed by adding the negation; canonical form is
    /// kept.
    pub fn sub(&self, other: &Frac) -> (r: Frac)
        ensures
            r.rat() == rat_sub(self.rat(), other.rat()),
            rat_reduced(r.rat()),
    {
        let r = self.add(&other.neg());
        proof {
            let x = self.rat();
            let y = other.rat();
            assert((-y.num) * x.den == -(y.num * x.den)) by (nonlinear_arith);
        }
        r
    }

    /// The product, in canonical form.
    pub fn mul(&self, other: &Frac) -> (r: Frac)
        ensures
            r.rat() == rat_mul(self.rat(), other.rat()),
            rat_reduced(r.rat()),
    {
        proof {
            use_type_invariant(&*self);
            use_type_invariant(&*other);
        }
        let n = self.numerator.mul(&other.numerator);
        let d = self.denominator.mul(&other.denominator);
        proof {
            assert(d@ > 0) by (nonlinear_arith)
                requires d@ == self.rat().den * other.rat().den && self.rat().den > 0
                    && other.rat().den > 0;
        }
        Frac::normalized(n, d)
    }

    /// The quotient, computed by multiplying with the reciprocal. Fails
    /// exactly when the divisor is zero.
    pub fn div(&self, other: &Frac) -> (r: Result<Frac, EvalError>)
        ensures
            match r {
                Ok(f) => other.rat().num != 0 && f.rat() == rat_div(self.rat(), other.rat())
                    && rat_reduced(f.rat()),
                Err(e) => other.rat().num == 0 && e == EvalError::DivisionByZero,
            },
    {
        proof {
            use_type_invariant(&*self);
            use_type_invariant(&*other);
        }
        match other.inverse() {
            Err(e) => Err(e),
            Ok(inv) => {
                let f = self.mul(&inv);
                proof {
                    let x = self.rat();
                    let y = other.rat();
                    let iv = inv.rat();
                    lemma_rat_norm_props(y.den, y.num);
                    assert(iv.num * y.num == y.den * iv.den);
                    assert(x.den * iv.den != 0) by (nonlinear_arith)
                        requires x.den > 0 && iv.den > 0;
                    assert(x.den * y.num != 0) by (nonlinear_arith)
                        requires x.den > 0 && y.num != 0;
                    assert((x.num * iv.num) * (x.den * y.num) == (x.num * x.den) * (iv.num
                        * y.num)) by (nonlinear_arith);
                    assert((x.num * y.den) * (x.den * iv.den) == (x.num * x.den) * (y.den
                        * iv.den)) by (nonlinear_arith);
                    lemma_rat_norm_unique(x.num * iv.num, x.den * iv.den, x.num * y.den, x.den * y.num);
                }
                Ok(f)
            },
        }
    }

    /// Whether numerator and denominator are already coprime; true of every
    /// fraction this module hands out.
    pub fn is_simplified(&self) -> (r: bool)
        ensures
            r == rat_reduced(self.rat()),
    {
        proof {
            use_type_invariant(&*self);
        }
        match self.numerator.gcd(&self.denominator) {
            Ok(g) => {
                let one = BigNum::one();
                g == one
            },
            Err(_) => false,
        }
    }

    /// The textual rendering "numerator/denominator".
    pub fn to_string(&self) -> (r: String)
        ensures
            r@ == frac_str(self.rat()),
    {
        let mut out = self.numerator.to_string();
        proof {
            reveal_strlit("/");
        }
        out.append("/");
        let den_text = self.denominator.to_string();
        out.append(den_text.as_str());
        proof {
            assert(out@ =~= frac_str(self.rat()));
        }
        out
    }

    /// Whether the fraction is zero, that is, its numerator is zero.
    pub fn is_zero(&self) -> (r: bool)
        ensures
            r == (self.rat().num == 0),
    {
        self.numerator.is_zero()
    }

    /// A borrowed view of the numerator.
    pub fn numerator(&self) -> (r: &BigNum)
        ensures
            r@ == self.rat().num,
    {
        &self.numerator
    }

    /// A borrowed view of the denominator.
    pub fn denominator(&self) -> (r: &BigNum)
        ensures
            r@ == self.rat().den,
    {
        &self.denominator
    }
}

impl Clone for Frac {
    /// An identical copy of the fraction.
    fn clone(&self) -> (r: Self)
        ensures
            r.rat() == self.rat(),
    {
        proof {
            use_type_invariant(&*self);
        }
        Frac { numerator: self.numerator.clone(), denominator: self.denominator.clone() }
    }
}

impl PartialEq for Frac {
    /// Equality of the rationals: cross multiplication, with both sides
    /// required to be in canonical form.
    fn eq(&self, other: &Frac) -> (r: bool)
    {
        proof {
            use_type_invariant(&*self);
            use_type_invariant(&*other);
        }
        let cross1 = self.numerator.mul(&other.denominator);
        let cross2 = self.denominator.mul(&other.numerator);
        let r = cross1 == cross2 && self.is_simplified() && other.is_simplified();
        proof {
            let x = self.rat();
            let y = other.rat();
            assert(x.den * y.num == y.num * x.den) by (nonlinear_arith);
            if cross1@ == cross2@ {
                lemma_reduced_cross_eq(x, y);
            }
        }
        r
    }
}

impl vstd::std_specs::cmp::PartialEqSpecImpl for Frac {
    open spec fn obeys_eq_spec() -> bool {
        true
    }

    open spec fn eq_spec(&self, other: &Frac) -> bool {
        self.rat() == other.rat()
    }
}

impl IntoFrac for BigNum {
    open spec fn frac_model(&self) -> Rat {
        rat_int(self@)
    }

    /// Embeds the integer as the fraction value/1.
    fn to_frac(self) -> (r: Frac)
        ensures
            r.rat() == self.frac_model(),
    {
        Frac::from_bignum(self)
    }
}

impl IntoFrac for Frac {
    open spec fn frac_model(&self) -> Rat {
        self.rat()
    }

    /// A fraction is already a fraction.
    fn to_frac(self) -> (r: Frac)
        ensures
            r.rat() == self.frac_model(),
    {
        self
    }
}

/// How many slashes a character sequence holds.
pub open spec fn slash_count(s: Seq<char>) -> int
    decreases s.len(),
{
    if s.len() == 0 {
        0
    } else {
        slash_count(s.drop_last()) + if s.last() == '/' {
            1int
        } else {
            0int
        }
    }
}

/// The index of the first slash, or the length when there is none.
pub open spec fn slash_pos(s: Seq<char>) -> int
    decreases s.len(),
{
    if s.len() == 0 {
        0
    } else if s[0] == '/' {
        0
    } else {
        1 + slash_pos(s.drop_first())
    }
}

/// The numerator part of a fraction literal: what stands before the first
/// slash.
pub open spec fn frac_body_num(s: Seq<char>) -> Seq<char> {
    s.take(slash_pos(s))
}

/// The denominator part of a fraction literal: what stands after the first
/// slash.
pub open spec fn frac_body_den(s: Seq<char>) -> Seq<char> {
    s.skip(slash_pos(s) + 1)
}

/// A well-formed fraction literal: exactly one slash, an integer literal on
/// each side, and a nonzero denominator.
pub open spec fn is_frac_literal(s: Seq<char>) -> bool {
    &&& slash_count(s) == 1
    &&& is_int_literal(frac_body_num(s))
    &&& is_int_literal(frac_body_den(s))
    &&& int_literal_value(frac_body_den(s)) != 0
}

/// A position holding a slash with none before it is the first slash.
pub proof fn lemma_slash_pos_unique(s: Seq<char>, p: int)
    requires
        0 <= p < s.len(),
        s[p] == '/',
        forall|k: int| 0 <= k < p ==> s[k] != '/',
    ensures
        slash_pos(s) == p,
    decreases p,
{
    if p > 0 {
        lemma_slash_pos_unique(s.drop_first(), p - 1);
    }
}

/// Slashes in a concatenation are counted on both sides.
pub proof fn lemma_slash_count_concat(u: Seq<char>, v: Seq<char>)
    ensures
        slash_count(u + v) == slash_count(u) + slash_count(v),
    decreases v.len(),
{
    if v.len() == 0 {
        assert(u + v =~= u);
    } else {
        lemma_slash_count_concat(u, v.drop_last());
        assert((u + v).drop_last() =~= u + v.drop_last());
        assert((u + v).last() == v.last());
    }
}

/// A sequence without slashes counts zero slashes.
pub proof fn lemma_no_slash_count(u: Seq<char>)
    requires
        forall|k: int| 0 <= k < u.len() ==> u[k] != '/',
    ensures
        slash_count(u) == 0,
    decreases u.len(),
{
    if u.len() > 0 {
        lemma_no_slash_count(u.drop_last());
    }
}

impl Frac {
    /// Parses "numerator/denominator". The text must split into exactly two
    /// parts on a slash, both parts must parse as integers, and the
    /// denominator may not be zero; the fraction is then built in canonical
    /// form.
    pub fn from_str(s: &str) -> (r: Result<Frac, EvalError>)
        ensures
            match r {
                Ok(f) => is_frac_literal(s@) && f.rat() == rat_norm(
                    int_literal_value(frac_body_num(s@)),
                    int_literal_value(frac_body_den(s@)),
                ) && rat_reduced(f.rat()),
                Err(e) => !is_frac_literal(s@) && e == (if slash_count(s@) != 1 {
                    EvalError::FormatError(LiteralKind::Fraction)
                } else if !is_int_literal(frac_body_num(s@)) || !is_int_literal(
                    frac_body_den(s@),
                ) {
                    EvalError::FormatError(LiteralKind::Integer)
                } else {
                    EvalError::DivisionByZero
                }),
            },
    {
        let n = s.unicode_len();
        let mut count: usize = 0;
        let mut pos: usize = 0;
        let mut i: usize = 0;
        proof {
            assert(s@.take(0) =~= Seq::<char>::empty());
        }
        while i < n
            invariant
                i <= n,
                n as nat == s@.len(),
                count <= i,
                count as int == slash_count(s@.take(i as int)),
                count >= 1 ==> pos < i && s@[pos as int] == '/' && (forall|k: int|
                    0 <= k < pos ==> s@[k] != '/'),
                count == 0 ==> forall|k: int| 0 <= k < i ==> s@[k] != '/',
                count == 1 ==> forall|k: int| pos < k < i ==> s@[k] != '/',
            decreases n - i,
        {
            let c = s.get_char(i);
            if c == '/' {
                if count == 0 {
                    pos = i;
                }
                count = count + 1;
            }
            i = i + 1;
            proof {
                assert(s@.take(i as int).drop_last() =~= s@.take(i as int - 1));
                assert(s@.take(i as int).last() == s@[i as int - 1]);
            }
        }
        proof {
            assert(s@.take(n as int) =~= s@);
        }
        if count != 1 {
            return Err(EvalError::FormatError(LiteralKind::Fraction));
        }
        proof {
            lemma_slash_pos_unique(s@, pos as int);
        }
        let num_text = s.substring_char(0, pos);
        let den_text = s.substring_char(pos + 1, n);
        proof {
            assert(num_text@ =~= frac_body_num(s@));
            assert(den_text@ =~= frac_body_den(s@));
        }
        let numerator = match BigNum::from_str(num_text) {
            Ok(v) => v,
            Err(e) => {
                return Err(e);
            },
        };
        let denominator = match BigNum::from_str(den_text) {
            Ok(v) => v,
            Err(e) => {
                return Err(e);
            },
        };
        if denominator.is_zero() {
            return Err(EvalError::DivisionByZero);
        }
        Ok(Frac::normalized(numerator, denominator))
    }
}

/// Law: the display string of any reduced rational is a valid fraction
/// literal and parses back to the very same numerator and denominator.
pub proof fn lemma_frac_display_roundtrip(x: Rat)
    requires
        rat_reduced(x),
    ensures
        is_frac_literal(frac_str(x)),
        int_literal_value(frac_body_num(frac_str(x))) == x.num,
        int_literal_value(frac_body_den(frac_str(x))) == x.den,
        rat_norm(
            int_literal_value(frac_body_num(frac_str(x))),
            int_literal_value(frac_body_den(frac_str(x))),
        ) == x,
{
    let a = int_str(x.num);
    let b = int_str(x.den);
    let s = frac_str(x);
    lemma_int_str_no_slash(x.num);
    lemma_int_str_no_slash(x.den);
    lemma_slash_count_concat(a + seq!['/'], b);
    lemma_slash_count_concat(a, seq!['/']);
    lemma_no_slash_count(a);
    lemma_no_slash_count(b);
    assert(slash_count(seq!['/']) == 1) by {
        let sl: Seq<char> = seq!['/'];
        assert(sl.drop_last() =~= Seq::<char>::empty());
        assert(slash_count(Seq::<char>::empty()) == 0);
        assert(sl.last() == '/');
        assert(slash_count(sl) == slash_count(sl.drop_last()) + 1);
    }
    assert(s =~= (a + seq!['/']) + b);
    assert(slash_count(s) == 1);
    assert(s[a.len() as int] == '/');
    assert(forall|k: int| 0 <= k < a.len() ==> s[k] == a[k]);
    lemma_slash_pos_unique(s, a.len() as int);
    assert(frac_body_num(s) =~= a);
    assert(frac_body_den(s) =~= b);
    lemma_int_str_roundtrip(x.num);
    lemma_int_str_roundtrip(x.den);
    lemma_rat_norm_of_reduced(x);
}

} // verus!

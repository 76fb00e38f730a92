//! Arbitrary-precision signed decimal integers in sign-magnitude form.

use vstd::prelude::*;

verus! {

use core::cmp::Ordering;
use crate::digits::all_digits;
use crate::digits::canonical;
use crate::digits::copy_digits;
use crate::digits::digits_value;
use crate::digits::lemma_canonical_unique;
use crate::digits::lemma_leading_zero_is_zero;
use crate::digits::lemma_pow10_mono;
use crate::digits::lemma_value_bound;
use crate::digits::lemma_value_lower;
use crate::digits::lemma_value_lt;
use crate::digits::lemma_value_pos;
use crate::digits::lemma_value_skip_zeros;
use crate::digits::lemma_lsb_rev;
use crate::digits::lemma_value_push;
use crate::digits::rev_digits;
use crate::digits::reversed;
use crate::digits::padded_lsb;
use crate::digits::add_lsb;
use crate::digits::sub_lsb;
use crate::digits::mul_lsb;
use crate::error::EvalError;
use crate::error::LiteralKind;
use crate::text::char_digit;
use crate::text::char_of_digit;
use crate::text::chars_of_digits;
use crate::text::chars_value;
use crate::text::digit_str;
use crate::text::int_literal_body;
use crate::text::int_literal_value;
use crate::text::int_str;
use crate::text::is_int_literal;
use crate::text::lemma_char_digit_inverse;
use crate::text::lemma_chars_value_of_digits;
use crate::text::lemma_int_str_roundtrip;
use crate::text::lemma_nat_str_of_canonical;
use crate::text::nat_str;
use vstd::string::StrSliceExecFns;
use vstd::string::StringExecFns;
use vstd::arithmetic::div_mod::lemma_fundamental_div_mod;
use vstd::arithmetic::div_mod::lemma_fundamental_div_mod_converse;
use vstd::arithmetic::mul::lemma_mul_strict_inequality;

/// The absolute value of an integer.
pub open spec fn int_abs(x: int) -> int {
    if x < 0 {
        -x
    } else {
        x
    }
}

/// A signed decimal integer of arbitrary size. The digits run from the most
/// significant to the least significant; `sign` is true for non-negative
/// values. There are no leading zero digits, and zero is always stored as the
/// single digit `0` with a positive sign, so every value has exactly one
/// representation.
#[derive(Debug)]
pub struct BigNum {
    sign: bool,
    digits: Vec<u8>,
}

impl View for BigNum {
    type V = int;

    /// The integer a `BigNum` stands for.
    closed spec fn view(&self) -> int {
        if self.sign {
            digits_value(self.digits@) as int
        } else {
            -(digits_value(self.digits@) as int)
        }
    }
}

impl BigNum {
    #[verifier::type_invariant]
    spec fn well_formed(self) -> bool {
        &&& canonical(self.digits@)
        &&& (self.digits@[0] == 0 ==> self.sign)
    }

    /// Builds a number from canonical digits, forcing zero to stay positive.
    fn assemble(sign: bool, digits: Vec<u8>) -> (r: BigNum)
        requires
            canonical(digits@),
        ensures
            r@ == if sign {
                digits_value(digits@) as int
            } else {
                -(digits_value(digits@) as int)
            },
    {
        let zero = digits[0] == 0;
        proof {
            if zero {
                assert(digits@.drop_last() =~= Seq::<u8>::empty());
                assert(digits_value(digits@) == digits_value(digits@.drop_last()) * 10
                    + digits@.last());
            } else {
                lemma_value_pos(digits@);
            }
        }
        BigNum { sign: sign || zero, digits }
    }

    /// Strips leading zero digits; an all-zero sequence collapses to the
    /// single digit zero.
    fn remove_leading_zeros(num: Vec<u8>) -> (r: Vec<u8>)
        requires
            all_digits(num@),
        ensures
            canonical(r@),
            digits_value(r@) == digits_value(num@),
    {
        let mut i: usize = 0;
        while i < num.len() && num[i] == 0
            invariant
                i <= num@.len(),
                all_digits(num@),
                forall|k: int| 0 <= k < i ==> num@[k] == 0,
            decreases num@.len() - i,
        {
            i = i + 1;
        }
        proof {
            lemma_value_skip_zeros(num@, i as int);
        }
        let mut r: Vec<u8> = Vec::new();
        let mut j: usize = i;
        while j < num.len()
            invariant
                i <= j <= num@.len(),
                all_digits(num@),
                r@ =~= num@.subrange(i as int, j as int),
            decreases num@.len() - j,
        {
            r.push(num[j]);
            j = j + 1;
            proof {
                assert(r@ =~= num@.subrange(i as int, j as int));
            }
        }
        proof {
            assert(r@ =~= num@.skip(i as int));
        }
        if r.len() == 0 {
            r.push(0);
            proof {
                assert(digits_value(r@) == digits_value(r@.drop_last()) * 10 + r@.last());
                assert(r@.drop_last() =~= Seq::<u8>::empty());
            }
        }
        r
    }

    /// Builds a value from most-significant-first digits and a sign; the
    /// digits are normalized and an all-zero sequence becomes canonical zero
    /// whatever the sign argument says.
    pub fn from(num: Vec<u8>, sign: bool) -> (r: BigNum)
        requires
            all_digits(num@),
        ensures
            r@ == if sign {
                digits_value(num@) as int
            } else {
                -(digits_value(num@) as int)
            },
    {
        let digits = BigNum::remove_leading_zeros(num);
        BigNum::assemble(sign, digits)
    }

    /// The canonical zero.
    pub fn zero() -> (r: BigNum)
        ensures
            r@ == 0,
    {
        let mut digits: Vec<u8> = Vec::new();
        digits.push(0);
        proof {
            assert(digits@.drop_last() =~= Seq::<u8>::empty());
            assert(digits_value(digits@) == digits_value(digits@.drop_last()) * 10 + digits@.last());
        }
        BigNum::assemble(true, digits)
    }

    /// The integer one.
    pub fn one() -> (r: BigNum)
        ensures
            r@ == 1,
    {
        let mut digits: Vec<u8> = Vec::new();
        digits.push(1);
        proof {
            assert(digits@.drop_last() =~= Seq::<u8>::empty());
            assert(digits_value(digits@) == digits_value(digits@.drop_last()) * 10 + digits@.last());
        }
        BigNum::assemble(true, digits)
    }

    /// The absolute value.
    pub fn abs(&self) -> (r: BigNum)
        ensures
            r@ == int_abs(self@),
    {
        proof {
            use_type_invariant(&*self);
        }
        let digits = copy_digits(&self.digits);
        BigNum::assemble(true, digits)
    }

    /// Whether this value is zero.
    pub fn is_zero(&self) -> (r: bool)
        ensures
            r == (self@ == 0),
    {
        proof {
            use_type_invariant(&*self);
            if self.digits@[0] != 0 {
                lemma_value_pos(self.digits@);
            } else {
                assert(self.digits@.drop_last() =~= Seq::<u8>::empty());
                assert(digits_value(self.digits@) == digits_value(self.digits@.drop_last()) * 10
                    + self.digits@.last());
            }
        }
        self.digits.len() == 1 && self.digits[0] == 0
    }

    /// Whether this value is strictly below zero.
    pub fn is_negative(&self) -> (r: bool)
        ensures
            r == (self@ < 0),
    {
        proof {
            use_type_invariant(&*self);
            if self.digits@[0] != 0 {
                lemma_value_pos(self.digits@);
            } else {
                assert(self.digits@.drop_last() =~= Seq::<u8>::empty());
                assert(digits_value(self.digits@) == digits_value(self.digits@.drop_last()) * 10
                    + self.digits@.last());
            }
        }
        !self.sign
    }

    /// The same magnitude with the opposite sign; negating zero keeps it
    /// canonical positive zero.
    pub fn negate(&self) -> (r: BigNum)
        ensures
            r@ == -self@,
    {
        proof {
            use_type_invariant(&*self);
        }
        let digits = copy_digits(&self.digits);
        BigNum::assemble(!self.sign, digits)
    }
}

impl Clone for BigNum {
    /// An identical copy of the value.
    fn clone(&self) -> (r: Self)
        ensures
            r@ == self@,
    {
        proof {
            use_type_invariant(&*self);
        }
        let digits = copy_digits(&self.digits);
        BigNum { sign: self.sign, digits }
    }
}

/// Two well-formed values with equal views have equal sign and digits:
/// the representation is canonical.
proof fn lemma_repr_unique(a: &BigNum, b: &BigNum)
    requires
        a.well_formed(),
        b.well_formed(),
        a@ == b@,
    ensures
        a.sign == b.sign,
        a.digits@ =~= b.digits@,
{
    if a.digits@[0] != 0 {
        lemma_value_pos(a.digits@);
    } else {
        lemma_leading_zero_is_zero(a.digits@);
    }
    if b.digits@[0] != 0 {
        lemma_value_pos(b.digits@);
    } else {
        lemma_leading_zero_is_zero(b.digits@);
    }
    assert(digits_value(a.digits@) == digits_value(b.digits@));
    lemma_canonical_unique(a.digits@, b.digits@);
}

impl PartialEq for BigNum {
    /// Equality of the values.
    fn eq(&self, other: &BigNum) -> (r: bool)
    {
        proof {
            use_type_invariant(&*self);
            use_type_invariant(&*other);
            if self@ == other@ {
                lemma_repr_unique(self, other);
            }
        }
        let r = self.sign == other.sign && digits_eq(&self.digits, &other.digits);
        r
    }
}

impl vstd::std_specs::cmp::PartialEqSpecImpl for BigNum {
    open spec fn obeys_eq_spec() -> bool {
        true
    }

    open spec fn eq_spec(&self, other: &BigNum) -> bool {
        self@ == other@
    }
}

/// Element-wise comparison of two digit vectors.
fn digits_eq(a: &Vec<u8>, b: &Vec<u8>) -> (r: bool)
    ensures
        r == (a@ =~= b@),
{
    if a.len() != b.len() {
        return false;
    }
    let mut i: usize = 0;
    while i < a.len()
        invariant
            a@.len() == b@.len(),
            i <= a@.len(),
            forall|k: int| 0 <= k < i ==> a@[k] == b@[k],
        decreases a@.len() - i,
    {
        if a[i] != b[i] {
            return false;
        }
        i = i + 1;
    }
    true
}

/// Three-way comparison of the magnitudes of two canonical digit sequences.
fn compare_digits(a: &Vec<u8>, b: &Vec<u8>) -> (r: Ordering)
    requires
        canonical(a@),
        canonical(b@),
    ensures
        r == Ordering::Less <==> digits_value(a@) < digits_value(b@),
        r == Ordering::Equal <==> digits_value(a@) == digits_value(b@),
        r == Ordering::Greater <==> digits_value(a@) > digits_value(b@),
{
    if a.len() < b.len() {
        proof {
            lemma_value_bound(a@);
            lemma_pow10_mono(a@.len(), (b@.len() - 1) as nat);
            lemma_value_lower(b@);
        }
        return Ordering::Less;
    }
    if a.len() > b.len() {
        proof {
            lemma_value_bound(b@);
            lemma_pow10_mono(b@.len(), (a@.len() - 1) as nat);
            lemma_value_lower(a@);
        }
        return Ordering::Greater;
    }
    let mut i: usize = 0;
    while i < a.len()
        invariant
            canonical(a@),
            canonical(b@),
            a@.len() == b@.len(),
            i <= a@.len(),
            a@.take(i as int) =~= b@.take(i as int),
        decreases a@.len() - i,
    {
        if a[i] < b[i] {
            proof {
                lemma_value_lt(a@, b@, i as int);
            }
            return Ordering::Less;
        }
        if a[i] > b[i] {
            proof {
                lemma_value_lt(b@, a@, i as int);
            }
            return Ordering::Greater;
        }
        i = i + 1;
        proof {
            assert(a@.take(i as int) =~= b@.take(i as int));
        }
    }
    proof {
        assert(a@.take(a@.len() as int) =~= a@);
        assert(b@.take(b@.len() as int) =~= b@);
        assert(a@ =~= b@);
    }
    Ordering::Equal
}

impl PartialOrd for BigNum {
    /// The total order of the values.
    fn partial_cmp(&self, other: &BigNum) -> (r: Option<Ordering>)
    {
        proof {
            use_type_invariant(&*self);
            use_type_invariant(&*other);
            if self.digits@[0] != 0 {
                lemma_value_pos(self.digits@);
            } else {
                lemma_leading_zero_is_zero(self.digits@);
            }
            if other.digits@[0] != 0 {
                lemma_value_pos(other.digits@);
            } else {
                lemma_leading_zero_is_zero(other.digits@);
            }
        }
        if self.sign && !other.sign {
            return Some(Ordering::Greater);
        }
        if !self.sign && other.sign {
            return Some(Ordering::Less);
        }
        let mag = compare_digits(&self.digits, &other.digits);
        if self.sign {
            Some(mag)
        } else {
            match mag {
                Ordering::Less => Some(Ordering::Greater),
                Ordering::Equal => Some(Ordering::Equal),
                Ordering::Greater => Some(Ordering::Less),
            }
        }
    }
}

impl vstd::std_specs::cmp::PartialOrdSpecImpl for BigNum {
    open spec fn obeys_partial_cmp_spec() -> bool {
        true
    }

    open spec fn partial_cmp_spec(&self, other: &BigNum) -> Option<Ordering> {
        if self@ < other@ {
            Some(Ordering::Less)
        } else if self@ == other@ {
            Some(Ordering::Equal)
        } else {
            Some(Ordering::Greater)
        }
    }
}

/// Sum of the magnitudes of two digit sequences.
fn mag_add(a: &Vec<u8>, b: &Vec<u8>) -> (r: Vec<u8>)
    requires
        all_digits(a@),
        all_digits(b@),
    ensures
        canonical(r@),
        digits_value(r@) == digits_value(a@) + digits_value(b@),
{
    let ra = reversed(a);
    let rb = reversed(b);
    proof {
        lemma_lsb_rev(a@);
        lemma_lsb_rev(b@);
        assert(all_digits(ra@));
        assert(all_digits(rb@));
    }
    let pa = padded_lsb(&ra, rb.len());
    let pb = padded_lsb(&rb, ra.len());
    let sum = add_lsb(&pa, &pb, 0, 0);
    proof {
        assert(pa@.skip(0) =~= pa@);
        assert(pb@.skip(0) =~= pb@);
    }
    let m = reversed(&sum);
    proof {
        lemma_lsb_rev(m@);
        assert(rev_digits(m@) =~= sum@);
        assert(all_digits(m@));
    }
    BigNum::remove_leading_zeros(m)
}

/// Difference of the magnitudes of two digit sequences; the first must not be
/// smaller.
fn mag_sub(a: &Vec<u8>, b: &Vec<u8>) -> (r: Vec<u8>)
    requires
        all_digits(a@),
        all_digits(b@),
        digits_value(a@) >= digits_value(b@),
    ensures
        canonical(r@),
        digits_value(r@) == digits_value(a@) - digits_value(b@),
{
    let ra = reversed(a);
    let rb = reversed(b);
    proof {
        lemma_lsb_rev(a@);
        lemma_lsb_rev(b@);
        assert(all_digits(ra@));
        assert(all_digits(rb@));
    }
    let pa = padded_lsb(&ra, rb.len());
    let pb = padded_lsb(&rb, ra.len());
    proof {
        assert(pa@.skip(0) =~= pa@);
        assert(pb@.skip(0) =~= pb@);
    }
    let diff = sub_lsb(&pa, &pb, 0, 0);
    let m = reversed(&diff);
    proof {
        lemma_lsb_rev(m@);
        assert(rev_digits(m@) =~= diff@);
        assert(all_digits(m@));
    }
    BigNum::remove_leading_zeros(m)
}

/// Product of the magnitude of a digit sequence with one digit.
fn mag_mul_digit(a: &Vec<u8>, d: u8) -> (r: Vec<u8>)
    requires
        all_digits(a@),
        d < 10,
    ensures
        canonical(r@),
        digits_value(r@) == digits_value(a@) * d,
{
    let ra = reversed(a);
    proof {
        lemma_lsb_rev(a@);
        assert(all_digits(ra@));
        assert(ra@.skip(0) =~= ra@);
    }
    let prod = mul_lsb(&ra, 0, d, 0);
    let m = reversed(&prod);
    proof {
        lemma_lsb_rev(m@);
        assert(rev_digits(m@) =~= prod@);
        assert(all_digits(m@));
    }
    BigNum::remove_leading_zeros(m)
}

/// Schoolbook product of the magnitudes of two digit sequences.
fn mag_mul(a: &Vec<u8>, b: &Vec<u8>) -> (r: Vec<u8>)
    requires
        all_digits(a@),
        all_digits(b@),
    ensures
        canonical(r@),
        digits_value(r@) == digits_value(a@) * digits_value(b@),
{
    let mut acc: Vec<u8> = Vec::new();
    acc.push(0);
    proof {
        assert(acc@.drop_last() =~= Seq::<u8>::empty());
        assert(digits_value(acc@) == digits_value(acc@.drop_last()) * 10 + acc@.last());
        assert(b@.take(0) =~= Seq::<u8>::empty());
        assert(digits_value(b@.take(0)) * digits_value(a@) == 0) by (nonlinear_arith)
            requires digits_value(b@.take(0)) == 0;
    }
    let mut i: usize = 0;
    while i < b.len()
        invariant
            all_digits(a@),
            all_digits(b@),
            i <= b@.len(),
            canonical(acc@),
            digits_value(acc@) == digits_value(b@.take(i as int)) * digits_value(a@),
        decreases b@.len() - i,
    {
        let ghost prefix = digits_value(b@.take(i as int));
        let mut shifted = copy_digits(&acc);
        shifted.push(0);
        proof {
            lemma_value_push(acc@, 0);
            assert(shifted@ =~= acc@.push(0));
        }
        let part = mag_mul_digit(a, b[i]);
        let next = mag_add(&shifted, &part);
        proof {
            let av = digits_value(a@) as int;
            let bi = b@[i as int] as int;
            let pv = prefix as int;
            assert(b@.take(i as int + 1).drop_last() =~= b@.take(i as int));
            assert(b@.take(i as int + 1).last() == b@[i as int]);
            assert(digits_value(b@.take(i as int + 1)) as int == pv * 10 + bi);
            assert((pv * 10 + bi) * av == (pv * av) * 10 + bi * av) by (nonlinear_arith);
            assert(digits_value(shifted@) as int == pv * av * 10);
            assert(digits_value(part@) as int == av * bi);
            assert(av * bi == bi * av) by (nonlinear_arith);
            assert(digits_value(next@) as int == (pv * av) * 10 + bi * av);
            assert(digits_value(next@) as int == (pv * 10 + bi) * av);
            assert(digits_value(b@.take(i as int + 1)) * digits_value(a@) == digits_value(
                b@.take(i as int + 1),
            ) as int * av);
            assert(digits_value(next@) == digits_value(b@.take(i as int + 1)) * digits_value(a@));
        }
        acc = next;
        i = i + 1;
    }
    proof {
        assert(b@.take(b@.len() as int) =~= b@);
        assert(digits_value(b@) * digits_value(a@) == digits_value(a@) * digits_value(b@))
            by (nonlinear_arith);
    }
    acc
}

impl BigNum {
    /// The sum of two values.
    pub fn add(&self, other: &BigNum) -> (r: BigNum)
        ensures
            r@ == self@ + other@,
    {
        proof {
            use_type_invariant(&*self);
            use_type_invariant(&*other);
        }
        if self.sign == other.sign {
            let m = mag_add(&self.digits, &other.digits);
            BigNum::assemble(self.sign, m)
        } else {
            match compare_digits(&self.digits, &other.digits) {
                Ordering::Less => {
                    let m = mag_sub(&other.digits, &self.digits);
                    BigNum::assemble(other.sign, m)
                },
                Ordering::Equal => {
                    let m = mag_sub(&self.digits, &other.digits);
                    BigNum::assemble(self.sign, m)
                },
                Ordering::Greater => {
                    let m = mag_sub(&self.digits, &other.digits);
                    BigNum::assemble(self.sign, m)
                },
            }
        }
    }

    /// The difference of two values.
    pub fn sub(&self, other: &BigNum) -> (r: BigNum)
        ensures
            r@ == self@ - other@,
    {
        self.add(&other.negate())
    }

    /// The product of two values; the sign is positive exactly when the signs
    /// agree or the product is zero.
    pub fn mul(&self, other: &BigNum) -> (r: BigNum)
        ensures
            r@ == self@ * other@,
    {
        proof {
            use_type_invariant(&*self);
            use_type_invariant(&*other);
        }
        let m = mag_mul(&self.digits, &other.digits);
        proof {
            let da = digits_value(self.digits@) as int;
            let db = digits_value(other.digits@) as int;
            assert((-da) * db == -(da * db)) by (nonlinear_arith);
            assert(da * (-db) == -(da * db)) by (nonlinear_arith);
            assert((-da) * (-db) == da * db) by (nonlinear_arith);
        }
        BigNum::assemble(self.sign == other.sign, m)
    }
}

/// Truncating division: the quotient of the magnitudes, signed negative
/// exactly when the operands' signs differ.
pub open spec fn div_trunc(a: int, b: int) -> int
    recommends
        b != 0,
{
    if (a < 0) == (b < 0) {
        int_abs(a) / int_abs(b)
    } else {
        -(int_abs(a) / int_abs(b))
    }
}

/// The remainder truncating division leaves; it carries the dividend's sign.
pub open spec fn rem_trunc(a: int, b: int) -> int
    recommends
        b != 0,
{
    a - b * div_trunc(a, b)
}

/// The remainder of truncating division is the remainder of the magnitudes,
/// signed like the dividend.
pub proof fn lemma_rem_trunc_magnitude(a: int, b: int)
    requires
        b != 0,
    ensures
        rem_trunc(a, b) == if a >= 0 {
            int_abs(a) % int_abs(b)
        } else {
            -(int_abs(a) % int_abs(b))
        },
{
    let aa = int_abs(a);
    let ab = int_abs(b);
    lemma_fundamental_div_mod(aa, ab);
    let q = aa / ab;
    let dt = div_trunc(a, b);
    if b > 0 {
        if a >= 0 {
            assert(b * dt == ab * q);
        } else {
            assert(dt == -q);
            assert(b * (-q) == -(ab * q)) by (nonlinear_arith)
                requires b == ab;
        }
    } else {
        if a >= 0 {
            assert(dt == -q);
            assert(b * (-q) == ab * q) by (nonlinear_arith)
                requires b == -ab;
        } else {
            assert(dt == q);
            assert(b * q == -(ab * q)) by (nonlinear_arith)
                requires b == -ab;
        }
    }
}

/// The digit `0..=9` that says how often `b` fits into `rem`, found by
/// repeated subtraction.
fn quotient_digit(rem: &Vec<u8>, b: &Vec<u8>) -> (qd: u8)
    requires
        canonical(rem@),
        canonical(b@),
        digits_value(b@) >= 1,
        digits_value(rem@) < 10 * digits_value(b@),
    ensures
        qd < 10,
        qd * digits_value(b@) <= digits_value(rem@),
        digits_value(rem@) < (qd + 1) * digits_value(b@),
{
    let ghost rv = digits_value(rem@) as int;
    let ghost bv = digits_value(b@) as int;
    let mut qd: u8 = 0;
    let mut cur = copy_digits(rem);
    let mut done: bool = false;
    proof {
        assert(0 * bv == 0) by (nonlinear_arith);
    }
    while !done
        invariant
            canonical(cur@),
            canonical(b@),
            bv == digits_value(b@),
            rv == digits_value(rem@),
            bv >= 1,
            rv < 10 * bv,
            qd <= 9,
            digits_value(cur@) == rv - qd * bv,
            done ==> digits_value(cur@) < bv,
        decreases digits_value(cur@) + (if done { 0int } else { 1int }),
    {
        match compare_digits(&cur, b) {
            Ordering::Less => {
                done = true;
            },
            Ordering::Equal => {
                proof {
                    assert((qd + 1) * bv == qd * bv + bv) by (nonlinear_arith);
                    assert(qd + 1 <= 9) by (nonlinear_arith)
                        requires (qd + 1) * bv <= rv && rv < 10 * bv && bv >= 1 && qd >= 0;
                }
                cur = mag_sub(&cur, b);
                qd = qd + 1;
            },
            Ordering::Greater => {
                proof {
                    assert((qd + 1) * bv == qd * bv + bv) by (nonlinear_arith);
                    assert(qd + 1 <= 9) by (nonlinear_arith)
                        requires (qd + 1) * bv <= rv && rv < 10 * bv && bv >= 1 && qd >= 0;
                }
                cur = mag_sub(&cur, b);
                qd = qd + 1;
            },
        }
    }
    proof {
        assert((qd + 1) * bv == qd * bv + bv) by (nonlinear_arith);
    }
    qd
}

/// Long division of magnitudes: the quotient and remainder of the values of
/// two canonical digit sequences.
fn mag_divmod(a: &Vec<u8>, b: &Vec<u8>) -> (qr: (Vec<u8>, Vec<u8>))
    requires
        canonical(a@),
        canonical(b@),
        digits_value(b@) >= 1,
    ensures
        canonical(qr.0@),
        canonical(qr.1@),
        digits_value(qr.0@) == digits_value(a@) / digits_value(b@),
        digits_value(qr.1@) == digits_value(a@) % digits_value(b@),
{
    let ghost bv = digits_value(b@) as int;
    let mut quot: Vec<u8> = Vec::new();
    let mut rem: Vec<u8> = Vec::new();
    rem.push(0);
    proof {
        assert(rem@.drop_last() =~= Seq::<u8>::empty());
        assert(digits_value(rem@) == digits_value(rem@.drop_last()) * 10 + rem@.last());
        assert(a@.take(0) =~= Seq::<u8>::empty());
        assert(0 * bv == 0) by (nonlinear_arith);
    }
    let mut i: usize = 0;
    while i < a.len()
        invariant
            canonical(a@),
            canonical(b@),
            bv == digits_value(b@),
            bv >= 1,
            i <= a@.len(),
            all_digits(quot@),
            canonical(rem@),
            digits_value(rem@) < bv,
            digits_value(a@.take(i as int)) == digits_value(quot@) * bv + digits_value(rem@),
        decreases a@.len() - i,
    {
        let ghost old_q = digits_value(quot@) as int;
        let ghost old_r = digits_value(rem@) as int;
        let mut rem10 = copy_digits(&rem);
        rem10.push(a[i]);
        proof {
            lemma_value_push(rem@, a@[i as int]);
        }
        let rem_new = BigNum::remove_leading_zeros(rem10);
        let qd = quotient_digit(&rem_new, b);
        let prod = mag_mul_digit(b, qd);
        proof {
            assert(bv * qd == qd * bv) by (nonlinear_arith);
        }
        let rem2 = mag_sub(&rem_new, &prod);
        let ghost qv0 = quot@;
        quot.push(qd);
        proof {
            lemma_value_push(qv0, qd);
            assert(quot@ =~= qv0.push(qd));
            assert(a@.take(i as int + 1).drop_last() =~= a@.take(i as int));
            assert(a@.take(i as int + 1).last() == a@[i as int]);
            let ai = a@[i as int] as int;
            assert(digits_value(a@.take(i as int + 1)) == digits_value(a@.take(i as int)) * 10
                + ai);
            assert(digits_value(rem2@) == old_r * 10 + ai - qd * bv);
            assert((old_q * 10 + qd) * bv == (old_q * bv) * 10 + qd * bv) by (nonlinear_arith);
            assert(digits_value(quot@) * bv == (old_q * 10 + qd) * bv);
            assert((qd + 1) * bv == qd * bv + bv) by (nonlinear_arith);
        }
        rem = rem2;
        i = i + 1;
    }
    proof {
        assert(a@.take(a@.len() as int) =~= a@);
        lemma_fundamental_div_mod_converse(
            digits_value(a@) as int,
            bv,
            digits_value(quot@) as int,
            digits_value(rem@) as int,
        );
    }
    let q = BigNum::remove_leading_zeros(quot);
    (q, rem)
}

/// The greatest common divisor, as the Euclidean algorithm computes it.
pub open spec fn gcd_nat(a: nat, b: nat) -> nat
    decreases b,
{
    if b == 0 {
        a
    } else {
        gcd_nat(b, a % b)
    }
}

/// Exact divisibility: `n` is an integer multiple of `d`.
pub open spec fn divides(d: int, n: int) -> bool {
    exists|k: int| n == #[trigger] (d * k)
}

/// The greatest common divisor of two numbers that are not both zero is
/// positive.
pub proof fn lemma_gcd_pos(a: nat, b: nat)
    requires
        a > 0 || b > 0,
    ensures
        gcd_nat(a, b) > 0,
    decreases b,
{
    if b > 0 {
        lemma_gcd_pos(b, a % b);
    }
}

/// The greatest common divisor divides both of its arguments exactly.
pub proof fn lemma_gcd_divides(a: nat, b: nat)
    ensures
        divides(gcd_nat(a, b) as int, a as int),
        divides(gcd_nat(a, b) as int, b as int),
    decreases b,
{
    let g = gcd_nat(a, b) as int;
    if b == 0 {
        assert(a as int == g * 1);
        assert(0int == g * 0) by (nonlinear_arith);
    } else {
        lemma_gcd_divides(b, a % b);
        let k1 = choose|k: int| b as int == #[trigger] (g * k);
        let k2 = choose|k: int| (a % b) as int == #[trigger] (g * k);
        lemma_fundamental_div_mod(a as int, b as int);
        let q = a as int / b as int;
        assert(a as int == (g * k1) * q + g * k2);
        assert((g * k1) * q + g * k2 == g * (k1 * q + k2)) by (nonlinear_arith);
        assert(a as int == g * (k1 * q + k2));
    }
}

/// Scaling both arguments scales the greatest common divisor.
pub proof fn lemma_gcd_scale(k: nat, a: nat, b: nat)
    requires
        k >= 1,
    ensures
        gcd_nat(k * a, k * b) == k * gcd_nat(a, b),
    decreases b,
{
    if b == 0 {
        assert(k * b == 0) by (nonlinear_arith)
            requires b == 0;
    } else {
        assert(k * b >= 1) by (nonlinear_arith)
            requires k >= 1 && b >= 1;
        lemma_fundamental_div_mod(a as int, b as int);
        let q = a as int / b as int;
        let m = a as int % b as int;
        assert(k * a == (q * (k * b) + k * m)) by (nonlinear_arith)
            requires a as int == b as int * q + m;
        assert(k * m < k * b) by {
            lemma_mul_strict_inequality(m, b as int, k as int);
            assert(k * m == m * k) by (nonlinear_arith);
            assert(k * b == b * k) by (nonlinear_arith);
        }
        assert(k * m >= 0) by (nonlinear_arith)
            requires k >= 0 && m >= 0;
        lemma_fundamental_div_mod_converse((k * a) as int, (k * b) as int, q, k * m);
        assert((k * a) as int % (k * b) as int == k * m);
        lemma_gcd_scale(k, b, (a % b) as nat);
        assert(gcd_nat(k * a, k * b) == gcd_nat(k * b, (k * a) % (k * b)));
    }
}

/// Dividing two numbers by their greatest common divisor makes them coprime,
/// and the divisions are exact.
pub proof fn lemma_gcd_reduce(a: nat, b: nat)
    requires
        a > 0 || b > 0,
    ensures
        gcd_nat(a, b) * (a / gcd_nat(a, b)) == a,
        gcd_nat(a, b) * (b / gcd_nat(a, b)) == b,
        gcd_nat(a / gcd_nat(a, b), b / gcd_nat(a, b)) == 1,
    decreases b,
{
    let g = gcd_nat(a, b);
    lemma_gcd_pos(a, b);
    lemma_gcd_divides(a, b);
    let ka = choose|k: int| a as int == #[trigger] (g as int * k);
    let kb = choose|k: int| b as int == #[trigger] (g as int * k);
    assert(ka >= 0) by (nonlinear_arith)
        requires g as int * ka >= 0 && g >= 1;
    assert(kb >= 0) by (nonlinear_arith)
        requires g as int * kb >= 0 && g >= 1;
    vstd::arithmetic::div_mod::lemma_div_multiples_vanish(ka, g as int);
    vstd::arithmetic::div_mod::lemma_div_multiples_vanish(kb, g as int);
    assert(a as int / g as int == ka);
    assert(b as int / g as int == kb);
    lemma_gcd_scale(g, ka as nat, kb as nat);
    assert(g * (ka as nat) == a);
    assert(g * (kb as nat) == b);
    assert(gcd_nat(a, b) == g * gcd_nat(ka as nat, kb as nat));
    assert(g * 1 == g) by (nonlinear_arith);
    vstd::arithmetic::mul::lemma_mul_equality_converse(
        g as int,
        1,
        gcd_nat(ka as nat, kb as nat) as int,
    );
}

impl BigNum {
    /// Truncating division of two values; the divisor may not be zero.
    pub(crate) fn div_nonzero(&self, other: &BigNum) -> (r: BigNum)
        requires
            other@ != 0,
        ensures
            r@ == div_trunc(self@, other@),
    {
        proof {
            use_type_invariant(&*self);
            use_type_invariant(&*other);
            if self.digits@[0] != 0 {
                lemma_value_pos(self.digits@);
            } else {
                lemma_leading_zero_is_zero(self.digits@);
            }
            if other.digits@[0] != 0 {
                lemma_value_pos(other.digits@);
            } else {
                lemma_leading_zero_is_zero(other.digits@);
            }
        }
        let (q, _rem) = mag_divmod(&self.digits, &other.digits);
        BigNum::assemble(self.sign == other.sign, q)
    }

    /// The remainder truncating division leaves; the divisor may not be zero.
    pub(crate) fn rem_nonzero(&self, other: &BigNum) -> (r: BigNum)
        requires
            other@ != 0,
        ensures
            r@ == rem_trunc(self@, other@),
    {
        proof {
            use_type_invariant(&*self);
            use_type_invariant(&*other);
            if self.digits@[0] != 0 {
                lemma_value_pos(self.digits@);
            } else {
                lemma_leading_zero_is_zero(self.digits@);
            }
            if other.digits@[0] != 0 {
                lemma_value_pos(other.digits@);
            } else {
                lemma_leading_zero_is_zero(other.digits@);
            }
            lemma_rem_trunc_magnitude(self@, other@);
        }
        let (_q, m) = mag_divmod(&self.digits, &other.digits);
        BigNum::assemble(self.sign, m)
    }

    /// Truncating division. Fails exactly when the divisor is zero.
    pub fn div(&self, other: &BigNum) -> (r: Result<BigNum, EvalError>)
        ensures
            match r {
                Ok(q) => other@ != 0 && q@ == div_trunc(self@, other@),
                Err(e) => other@ == 0 && e == EvalError::DivisionByZero,
            },
    {
        if other.is_zero() {
            Err(EvalError::DivisionByZero)
        } else {
            Ok(self.div_nonzero(other))
        }
    }

    /// The remainder of truncating division, with the dividend's sign. Fails
    /// exactly when the divisor is zero.
    pub fn rem(&self, other: &BigNum) -> (r: Result<BigNum, EvalError>)
        ensures
            match r {
                Ok(m) => other@ != 0 && m@ == rem_trunc(self@, other@),
                Err(e) => other@ == 0 && e == EvalError::DivisionByZero,
            },
    {
        if other.is_zero() {
            Err(EvalError::DivisionByZero)
        } else {
            Ok(self.rem_nonzero(other))
        }
    }

    /// The greatest common divisor of the magnitudes of two values that are
    /// not both zero.
    pub(crate) fn gcd_nonzero(&self, other: &BigNum) -> (r: BigNum)
        requires
            self@ != 0 || other@ != 0,
        ensures
            r@ == gcd_nat(int_abs(self@) as nat, int_abs(other@) as nat) as int,
            r@ >= 1,
    {
        let mut x = self.abs();
        let mut y = other.abs();
        proof {
            lemma_gcd_pos(int_abs(self@) as nat, int_abs(other@) as nat);
        }
        while !(y.is_zero())
            invariant
                x@ >= 0,
                y@ >= 0,
                x@ != 0 || y@ != 0,
                gcd_nat(x@ as nat, y@ as nat) == gcd_nat(
                    int_abs(self@) as nat,
                    int_abs(other@) as nat,
                ),
            decreases y@,
        {
            let m = x.rem_nonzero(&y);
            proof {
                lemma_rem_trunc_magnitude(x@, y@);
                lemma_fundamental_div_mod(x@, y@);
                vstd::arithmetic::div_mod::lemma_mod_bound(x@, y@);
            }
            x = y;
            y = m;
        }
        x
    }

    /// The greatest common divisor of the magnitudes, by the Euclidean
    /// algorithm. Fails exactly when both operands are zero; the divisor of a
    /// single zero operand is the other's magnitude.
    pub fn gcd(&self, other: &BigNum) -> (r: Result<BigNum, EvalError>)
        ensures
            match r {
                Ok(g) => (self@ != 0 || other@ != 0) && g@ == gcd_nat(
                    int_abs(self@) as nat,
                    int_abs(other@) as nat,
                ) as int && g@ >= 1,
                Err(e) => self@ == 0 && other@ == 0 && e == EvalError::UndefinedError,
            },
    {
        if self.is_zero() && other.is_zero() {
            Err(EvalError::UndefinedError)
        } else {
            Ok(self.gcd_nonzero(other))
        }
    }
}

impl BigNum {
    /// The canonical decimal rendering of this value: a minus sign for a
    /// negative value, then the digits with no leading zero.
    pub fn to_string(&self) -> (r: String)
        ensures
            r@ == int_str(self@),
    {
        proof {
            use_type_invariant(&*self);
            if self.digits@[0] != 0 {
                lemma_value_pos(self.digits@);
            } else {
                lemma_leading_zero_is_zero(self.digits@);
            }
            lemma_nat_str_of_canonical(self.digits@);
        }
        let mut out = String::new();
        if !self.sign {
            proof {
                reveal_strlit("-");
            }
            out.append("-");
        }
        let ghost prefix: Seq<char> = out@;
        let mut i: usize = 0;
        while i < self.digits.len()
            invariant
                canonical(self.digits@),
                i <= self.digits@.len(),
                out@ =~= prefix + chars_of_digits(self.digits@.take(i as int)),
            decreases self.digits@.len() - i,
        {
            let d = self.digits[i];
            out.append(digit_str(d));
            i = i + 1;
            proof {
                assert(chars_of_digits(self.digits@.take(i as int)) =~= chars_of_digits(
                    self.digits@.take(i as int - 1),
                ).push(char_of_digit(self.digits@[i as int - 1] as int)));
                assert(out@ =~= prefix + chars_of_digits(self.digits@.take(i as int)));
            }
        }
        proof {
            assert(self.digits@.take(self.digits@.len() as int) =~= self.digits@);
            if self.sign {
                assert(prefix =~= Seq::<char>::empty());
                assert(out@ =~= chars_of_digits(self.digits@));
                assert(out@ =~= int_str(self@));
            } else {
                assert(out@ =~= seq!['-'] + nat_str((-self@) as nat));
                assert(out@ =~= int_str(self@));
            }
        }
        out
    }

    /// Parses an optional sign followed by decimal digits. Any other text
    /// fails with a format error.
    pub fn from_str(s: &str) -> (r: Result<BigNum, EvalError>)
        ensures
            r is Ok <==> is_int_literal(s@),
            match r {
                Ok(v) => v@ == int_literal_value(s@),
                Err(e) => e == EvalError::FormatError(LiteralKind::Integer),
            },
    {
        let n = s.unicode_len();
        let mut start: usize = 0;
        let mut sign: bool = true;
        if n > 0 {
            let c0 = s.get_char(0);
            if c0 == '-' {
                sign = false;
                start = 1;
            } else if c0 == '+' {
                start = 1;
            }
        }
        proof {
            assert(int_literal_body(s@) =~= s@.skip(start as int));
        }
        if start == n {
            return Err(EvalError::FormatError(LiteralKind::Integer));
        }
        let ghost body = s@.skip(start as int);
        let mut digits: Vec<u8> = Vec::new();
        let mut i: usize = start;
        while i < n
            invariant
                start <= i <= n,
                n as nat == s@.len(),
                body =~= s@.skip(start as int),
                int_literal_body(s@) =~= body,
                all_digits(digits@),
                digits@.len() == i - start,
                chars_of_digits(digits@) =~= s@.subrange(start as int, i as int),
            decreases n - i,
        {
            let c = s.get_char(i);
            match char_digit(c) {
                Some(d) => {
                    digits.push(d);
                    i = i + 1;
                    proof {
                        lemma_char_digit_inverse(s@[i as int - 1]);
                        assert(chars_of_digits(digits@) =~= s@.subrange(
                            start as int,
                            i as int,
                        ));
                    }
                },
                None => {
                    proof {
                        assert(body[i - start as int] == s@[i as int]);
                        assert(!crate::text::digit_chars(body));
                    }
                    return Err(EvalError::FormatError(LiteralKind::Integer));
                },
            }
        }
        proof {
            assert(chars_of_digits(digits@) =~= body);
            lemma_chars_value_of_digits(digits@);
            assert(crate::text::digit_chars(body));
            assert(chars_value(body) == digits_value(digits@));
        }
        Ok(BigNum::from(digits, sign))
    }
}

/// The magnitude of a product is the product of the magnitudes.
pub proof fn lemma_abs_mul(x: int, y: int)
    ensures
        int_abs(x * y) == int_abs(x) * int_abs(y),
{
    if x >= 0 && y >= 0 {
        assert(x * y >= 0) by (nonlinear_arith)
            requires x >= 0 && y >= 0;
    } else if x >= 0 && y < 0 {
        assert(x * y <= 0) by (nonlinear_arith)
            requires x >= 0 && y < 0;
        assert(-(x * y) == x * (-y)) by (nonlinear_arith);
    } else if x < 0 && y >= 0 {
        assert(x * y <= 0) by (nonlinear_arith)
            requires x < 0 && y >= 0;
        assert(-(x * y) == (-x) * y) by (nonlinear_arith);
    } else {
        assert(x * y >= 0) by (nonlinear_arith)
            requires x < 0 && y < 0;
        assert(x * y == (-x) * (-y)) by (nonlinear_arith);
    }
}

/// When the divisor divides the dividend exactly, truncating division
/// recovers the cofactor and leaves no remainder.
pub proof fn lemma_divides_rem_trunc(a: int, b: int, k: int)
    requires
        b != 0,
        a == b * k,
    ensures
        div_trunc(a, b) == k,
        rem_trunc(a, b) == 0,
{
    lemma_abs_mul(b, k);
    assert(int_abs(a) == int_abs(b) * int_abs(k));
    vstd::arithmetic::div_mod::lemma_div_multiples_vanish(int_abs(k), int_abs(b));
    assert(int_abs(a) / int_abs(b) == int_abs(k));
    if k == 0 {
        assert(a == 0) by (nonlinear_arith)
            requires a == b * k && k == 0;
        assert(div_trunc(a, b) == 0);
    } else if k > 0 {
        assert((a < 0) == (b < 0)) by (nonlinear_arith)
            requires a == b * k && k > 0 && b != 0;
        assert(div_trunc(a, b) == int_abs(k));
    } else {
        assert((a < 0) != (b < 0)) by (nonlinear_arith)
            requires a == b * k && k < 0 && b != 0;
        assert(div_trunc(a, b) == -int_abs(k));
    }
    assert(b * div_trunc(a, b) == a);
}

/// Law: adding a value and then subtracting it gives back the original, for
/// any results that meet the contracts of `add` and `sub`.
pub proof fn lemma_add_sub_cancel(a: &BigNum, b: &BigNum, sum: &BigNum, diff: &BigNum)
    requires
        sum@ == a@ + b@,
        diff@ == sum@ - b@,
    ensures
        diff@ == a@,
{
}

/// Law: multiplying by one changes nothing.
pub proof fn lemma_mul_one(a: &BigNum, one: &BigNum, prod: &BigNum)
    requires
        one@ == 1,
        prod@ == a@ * one@,
    ensures
        prod@ == a@,
{
    assert(a@ * 1 == a@) by (nonlinear_arith);
}

/// Law: subtracting a value from itself gives zero, which is never negative
/// whatever the operand's sign was.
pub proof fn lemma_sub_self(a: &BigNum, diff: &BigNum)
    requires
        diff@ == a@ - a@,
    ensures
        diff@ == 0,
        !(diff@ < 0),
{
}

/// Law: the greatest common divisor of a value and zero is the value's
/// magnitude.
pub proof fn lemma_gcd_zero(a: nat)
    ensures
        gcd_nat(a, 0) == a,
{
}

/// Law: the greatest common divisor of two values that are not both zero
/// divides each of them exactly: the remainder of either value by it is zero.
pub proof fn lemma_gcd_divides_exactly(a: int, b: int)
    requires
        a != 0 || b != 0,
    ensures
        gcd_nat(int_abs(a) as nat, int_abs(b) as nat) >= 1,
        rem_trunc(a, gcd_nat(int_abs(a) as nat, int_abs(b) as nat) as int) == 0,
        rem_trunc(b, gcd_nat(int_abs(a) as nat, int_abs(b) as nat) as int) == 0,
{
    let aa = int_abs(a) as nat;
    let ab = int_abs(b) as nat;
    let g = gcd_nat(aa, ab) as int;
    lemma_gcd_pos(aa, ab);
    lemma_gcd_divides(aa, ab);
    let ka = choose|k: int| aa as int == #[trigger] (g * k);
    let kb = choose|k: int| ab as int == #[trigger] (g * k);
    if a >= 0 {
        lemma_divides_rem_trunc(a, g, ka);
    } else {
        assert(a == g * (-ka)) by (nonlinear_arith)
            requires g * ka == -a;
        lemma_divides_rem_trunc(a, g, -ka);
    }
    if b >= 0 {
        lemma_divides_rem_trunc(b, g, kb);
    } else {
        assert(b == g * (-kb)) by (nonlinear_arith)
            requires g * kb == -b;
        lemma_divides_rem_trunc(b, g, -kb);
    }
}

/// Law: the decimal rendering of any value is a valid integer literal and
/// parses back to the very same value.
pub proof fn lemma_display_roundtrip(a: &BigNum)
    ensures
        is_int_literal(int_str(a@)),
        int_literal_value(int_str(a@)) == a@,
{
    lemma_int_str_roundtrip(a@);
}

} // verus!

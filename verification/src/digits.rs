//! Sequences of decimal digits, the numbers they denote, and verified
//! schoolbook arithmetic on them. Digit sequences are stored with the most
//! significant digit first; the helpers that propagate carries and borrows
//! work on reversed (least significant first) copies.

use vstd::prelude::*;

verus! {

use vstd::arithmetic::mul::lemma_mul_is_associative;
use vstd::arithmetic::mul::lemma_mul_inequality;
use vstd::arithmetic::mul::lemma_mul_upper_bound;
use vstd::arithmetic::mul::lemma_mul_by_zero_is_zero;

/// Value of a digit sequence read most-significant digit first.
pub open spec fn digits_value(s: Seq<u8>) -> nat
    decreases s.len(),
{
    if s.len() == 0 {
        0
    } else {
        digits_value(s.drop_last()) * 10 + s.last() as nat
    }
}

/// Value of a digit sequence read least-significant digit first.
pub open spec fn lsb_value(s: Seq<u8>) -> nat
    decreases s.len(),
{
    if s.len() == 0 {
        0
    } else {
        s[0] as nat + 10 * lsb_value(s.drop_first())
    }
}

/// Every entry is a single decimal digit.
pub open spec fn all_digits(s: Seq<u8>) -> bool {
    forall|i: int| 0 <= i < s.len() ==> s[i] < 10
}

/// Canonical form: at least one digit, and no leading zero unless the
/// sequence is the single digit zero.
pub open spec fn canonical(s: Seq<u8>) -> bool {
    &&& all_digits(s)
    &&& s.len() >= 1
    &&& (s.len() > 1 ==> s[0] != 0)
}

pub open spec fn pow10(n: nat) -> nat
    decreases n,
{
    if n == 0 {
        1
    } else {
        10 * pow10((n - 1) as nat)
    }
}

/// The same digits in the opposite order.
pub open spec fn rev_digits(s: Seq<u8>) -> Seq<u8> {
    Seq::new(s.len(), |i: int| s[s.len() - 1 - i])
}

pub proof fn lemma_pow10_pos(n: nat)
    ensures
        pow10(n) >= 1,
    decreases n,
{
    if n > 0 {
        lemma_pow10_pos((n - 1) as nat);
    }
}

pub proof fn lemma_pow10_mono(a: nat, b: nat)
    requires
        a <= b,
    ensures
        pow10(a) <= pow10(b),
    decreases b,
{
    if a < b {
        lemma_pow10_mono(a, (b - 1) as nat);
        lemma_pow10_pos((b - 1) as nat);
    }
}

pub proof fn lemma_value_bound(s: Seq<u8>)
    requires
        all_digits(s),
    ensures
        digits_value(s) < pow10(s.len()),
    decreases s.len(),
{
    if s.len() > 0 {
        assert(all_digits(s.drop_last()));
        lemma_value_bound(s.drop_last());
        assert(s.last() < 10);
    }
}

pub proof fn lemma_value_lower(s: Seq<u8>)
    requires
        s.len() >= 1,
        s[0] != 0,
    ensures
        digits_value(s) >= pow10((s.len() - 1) as nat),
    decreases s.len(),
{
    if s.len() == 1 {
        assert(digits_value(s) == digits_value(s.drop_last()) * 10 + s.last() as nat);
        assert(s.last() == s[0]);
    } else {
        assert(s.drop_last()[0] == s[0]);
        lemma_value_lower(s.drop_last());
    }
}

/// A nonzero leading digit means a nonzero value.
pub proof fn lemma_value_pos(s: Seq<u8>)
    requires
        s.len() >= 1,
        s[0] != 0,
    ensures
        digits_value(s) >= 1,
{
    lemma_value_lower(s);
    lemma_pow10_pos((s.len() - 1) as nat);
}

/// A leading zero digit does not change the value.
pub proof fn lemma_value_drop_zero(s: Seq<u8>)
    requires
        s.len() >= 1,
        s[0] == 0,
    ensures
        digits_value(s) == digits_value(s.drop_first()),
    decreases s.len(),
{
    if s.len() == 1 {
        assert(s.drop_last() =~= Seq::<u8>::empty());
        assert(s.drop_first() =~= Seq::<u8>::empty());
        assert(digits_value(s) == digits_value(s.drop_last()) * 10 + s.last() as nat);
    } else {
        let dl = s.drop_last();
        assert(dl[0] == 0);
        lemma_value_drop_zero(dl);
        assert(dl.drop_first() =~= s.drop_first().drop_last());
        assert(s.drop_first().last() == s.last());
        assert(digits_value(s.drop_first()) == digits_value(s.drop_first().drop_last()) * 10
            + s.drop_first().last());
    }
}

/// Dropping any number of leading zero digits keeps the value.
pub proof fn lemma_value_skip_zeros(s: Seq<u8>, k: int)
    requires
        0 <= k <= s.len(),
        forall|i: int| 0 <= i < k ==> s[i] == 0,
    ensures
        digits_value(s) == digits_value(s.skip(k)),
    decreases k,
{
    if k == 0 {
        assert(s.skip(0) =~= s);
    } else {
        lemma_value_skip_zeros(s, k - 1);
        let t = s.skip(k - 1);
        assert(t[0] == s[k - 1]);
        lemma_value_drop_zero(t);
        assert(t.drop_first() =~= s.skip(k));
    }
}

/// Splitting a digit sequence splits its value at the matching power of ten.
pub proof fn lemma_value_split(s: Seq<u8>, i: int)
    requires
        0 <= i <= s.len(),
    ensures
        digits_value(s) == digits_value(s.take(i)) * pow10((s.len() - i) as nat) + digits_value(
            s.skip(i),
        ),
    decreases s.len(),
{
    if i == s.len() {
        assert(s.take(i) =~= s);
        assert(s.skip(i) =~= Seq::<u8>::empty());
        assert(digits_value(Seq::<u8>::empty()) == 0);
        assert(pow10((s.len() - i) as nat) == 1);
        assert(digits_value(s.take(i)) * 1 == digits_value(s));
    } else {
        let dl = s.drop_last();
        lemma_value_split(dl, i);
        assert(dl.take(i) =~= s.take(i));
        assert(dl.skip(i) =~= s.skip(i).drop_last());
        let p = pow10((s.len() - 1 - i) as nat);
        let a = digits_value(s.take(i));
        assert(s.skip(i).last() == s.last());
        assert(digits_value(s.skip(i)) == digits_value(s.skip(i).drop_last()) * 10 + s.last());
        assert(digits_value(s) == digits_value(dl) * 10 + s.last());
        assert(digits_value(dl) == a * p + digits_value(dl.skip(i)));
        assert((a * p) * 10 == a * (p * 10)) by {
            lemma_mul_is_associative(a as int, p as int, 10);
        }
        assert(pow10((s.len() - i) as nat) == 10 * p);
        assert(digits_value(s) == (a * p + digits_value(dl.skip(i))) * 10 + s.last());
        assert(digits_value(s) == (a * p) * 10 + (digits_value(dl.skip(i)) * 10 + s.last()));
        assert(digits_value(s) == a * (10 * p) + digits_value(s.skip(i)));
    }
}

/// Peeling one digit off the front of a suffix.
pub proof fn lemma_value_skip_step(s: Seq<u8>, i: int)
    requires
        0 <= i < s.len(),
    ensures
        digits_value(s.skip(i)) == s[i] * pow10((s.len() - i - 1) as nat) + digits_value(
            s.skip(i + 1),
        ),
{
    let t = s.skip(i);
    lemma_value_split(t, 1);
    assert(t.take(1) =~= seq![s[i]]);
    assert(t.skip(1) =~= s.skip(i + 1));
    assert(digits_value(Seq::<u8>::empty()) == 0);
    assert(digits_value(seq![s[i]]) == s[i]) by {
        assert(seq![s[i]].drop_last() =~= Seq::<u8>::empty());
        assert(digits_value(Seq::<u8>::empty()) == 0);
        assert(seq![s[i]].last() == s[i]);
    }
}

/// With equal lengths and a common prefix, the first differing digit decides
/// the order of the values.
pub proof fn lemma_value_lt(s: Seq<u8>, t: Seq<u8>, i: int)
    requires
        s.len() == t.len(),
        all_digits(s),
        all_digits(t),
        0 <= i < s.len(),
        s.take(i) =~= t.take(i),
        s[i] < t[i],
    ensures
        digits_value(s) < digits_value(t),
{
    lemma_value_split(s, i);
    lemma_value_split(t, i);
    lemma_value_skip_step(s, i);
    lemma_value_skip_step(t, i);
    let p = pow10((s.len() - i - 1) as nat);
    assert(all_digits(s.skip(i + 1)));
    lemma_value_bound(s.skip(i + 1));
    assert(digits_value(s.skip(i + 1)) < p);
    assert((s[i] + 1) * p <= t[i] * p) by {
        lemma_mul_inequality(s[i] + 1, t[i] as int, p as int);
    }
    assert((s[i] + 1) * p == s[i] * p + p) by (nonlinear_arith);
    assert(digits_value(s.skip(i)) < (s[i] + 1) * p);
    assert(digits_value(t.skip(i)) >= t[i] * p);
}

/// No digit sequence without leading zeros denotes a value twice.
proof fn lemma_trimmed_unique(s: Seq<u8>, t: Seq<u8>)
    requires
        all_digits(s),
        all_digits(t),
        s.len() >= 1 ==> s[0] != 0,
        t.len() >= 1 ==> t[0] != 0,
        digits_value(s) == digits_value(t),
    ensures
        s =~= t,
    decreases s.len(),
{
    if s.len() == 0 {
        if t.len() >= 1 {
            lemma_value_pos(t);
        }
    } else if t.len() == 0 {
        lemma_value_pos(s);
    } else if s.len() < t.len() {
        lemma_value_bound(s);
        lemma_pow10_mono(s.len(), (t.len() - 1) as nat);
        lemma_value_lower(t);
    } else if t.len() < s.len() {
        lemma_value_bound(t);
        lemma_pow10_mono(t.len(), (s.len() - 1) as nat);
        lemma_value_lower(s);
    } else {
        let sd = s.drop_last();
        let td = t.drop_last();
        assert(digits_value(s) == digits_value(sd) * 10 + s.last());
        assert(digits_value(t) == digits_value(td) * 10 + t.last());
        assert(s.last() < 10);
        assert(t.last() < 10);
        assert(all_digits(sd));
        assert(all_digits(td));
        if s.len() >= 2 {
            assert(sd[0] == s[0]);
            assert(td[0] == t[0]);
        }
        lemma_trimmed_unique(sd, td);
        assert(s =~= sd.push(s.last()));
        assert(t =~= td.push(t.last()));
    }
}

/// Canonical digit sequences are in bijection with the values they denote.
pub proof fn lemma_canonical_unique(s: Seq<u8>, t: Seq<u8>)
    requires
        canonical(s),
        canonical(t),
        digits_value(s) == digits_value(t),
    ensures
        s =~= t,
{
    if digits_value(s) == 0 {
        lemma_canonical_zero(s);
        lemma_canonical_zero(t);
    } else {
        if s[0] == 0 {
            assert(s.len() == 1);
            assert(s.drop_last() =~= Seq::<u8>::empty());
            assert(digits_value(s) == digits_value(s.drop_last()) * 10 + s.last() as nat);
        }
        if t[0] == 0 {
            assert(t.len() == 1);
            assert(t.drop_last() =~= Seq::<u8>::empty());
            assert(digits_value(t) == digits_value(t.drop_last()) * 10 + t.last());
        }
        lemma_trimmed_unique(s, t);
    }
}

/// The only canonical digit sequence with value zero is the single digit zero.
pub proof fn lemma_canonical_zero(s: Seq<u8>)
    requires
        canonical(s),
        digits_value(s) == 0,
    ensures
        s =~= seq![0u8],
{
    if s.len() > 1 || s[0] != 0 {
        lemma_value_pos(s);
    }
    assert(s.drop_last() =~= Seq::<u8>::empty());
    assert(digits_value(s) == digits_value(s.drop_last()) * 10 + s.last() as nat);
    assert(s =~= seq![0u8]);
}

/// A canonical sequence with a leading zero is the single digit zero.
pub proof fn lemma_leading_zero_is_zero(s: Seq<u8>)
    requires
        canonical(s),
        s[0] == 0,
    ensures
        digits_value(s) == 0,
        s =~= seq![0u8],
{
    assert(s.len() == 1);
    assert(s.drop_last() =~= Seq::<u8>::empty());
    assert(digits_value(s) == digits_value(s.drop_last()) * 10 + s.last());
    assert(s =~= seq![0u8]);
}

/// Appending a digit multiplies the value by ten and adds the digit.
pub proof fn lemma_value_push(s: Seq<u8>, d: u8)
    ensures
        digits_value(s.push(d)) == digits_value(s) * 10 + d,
{
    assert(s.push(d).drop_last() =~= s);
    assert(s.push(d).last() == d);
}

/// Reading the reversed digits least-significant first gives the same value.
pub proof fn lemma_lsb_rev(s: Seq<u8>)
    ensures
        lsb_value(rev_digits(s)) == digits_value(s),
    decreases s.len(),
{
    if s.len() == 0 {
        assert(rev_digits(s) =~= Seq::<u8>::empty());
    } else {
        let r = rev_digits(s);
        assert(r[0] == s.last());
        assert(r.drop_first() =~= rev_digits(s.drop_last()));
        lemma_lsb_rev(s.drop_last());
        assert(lsb_value(r) == r[0] + 10 * lsb_value(r.drop_first()));
    }
}

/// A trailing zero in a least-significant-first sequence adds nothing.
pub proof fn lemma_lsb_push_zero(s: Seq<u8>)
    ensures
        lsb_value(s.push(0)) == lsb_value(s),
    decreases s.len(),
{
    if s.len() == 0 {
        let p = s.push(0);
        assert(p.drop_first() =~= Seq::<u8>::empty());
        assert(lsb_value(p) == p[0] + 10 * lsb_value(p.drop_first()));
    } else {
        assert(s.push(0).drop_first() =~= s.drop_first().push(0));
        lemma_lsb_push_zero(s.drop_first());
        assert(lsb_value(s.push(0)) == s[0] + 10 * lsb_value(s.push(0).drop_first()));
    }
}

/// Peeling one digit off the front of a least-significant-first suffix.
pub proof fn lemma_lsb_skip_step(s: Seq<u8>, i: int)
    requires
        0 <= i < s.len(),
    ensures
        lsb_value(s.skip(i)) == s[i] + 10 * lsb_value(s.skip(i + 1)),
{
    assert(s.skip(i)[0] == s[i]);
    assert(s.skip(i).drop_first() =~= s.skip(i + 1));
    assert(lsb_value(s.skip(i)) == s.skip(i)[0] + 10 * lsb_value(s.skip(i).drop_first()));
}

/// An exact copy of a digit vector.
pub fn copy_digits(v: &Vec<u8>) -> (r: Vec<u8>)
    ensures
        r@ =~= v@,
{
    let mut r: Vec<u8> = Vec::new();
    let mut i: usize = 0;
    while i < v.len()
        invariant
            i <= v.len(),
            r@ =~= v@.take(i as int),
        decreases v.len() - i,
    {
        r.push(v[i]);
        i = i + 1;
        proof {
            assert(r@ =~= v@.take(i as int));
        }
    }
    proof {
        assert(v@.take(v@.len() as int) =~= v@);
    }
    r
}

/// The digits of `v` in the opposite order.
pub fn reversed(v: &Vec<u8>) -> (r: Vec<u8>)
    ensures
        r@ =~= rev_digits(v@),
{
    let mut r: Vec<u8> = Vec::new();
    let mut i: usize = v.len();
    while i > 0
        invariant
            i <= v.len(),
            r@.len() == v@.len() - i,
            forall|k: int| 0 <= k < r@.len() ==> r@[k] == v@[v@.len() - 1 - k],
        decreases i,
    {
        i = i - 1;
        r.push(v[i]);
    }
    proof {
        assert(r@ =~= rev_digits(v@));
    }
    r
}

/// `v` padded with zero digits at the least significant end up to length `n`.
pub fn padded_lsb(v: &Vec<u8>, n: usize) -> (r: Vec<u8>)
    requires
        all_digits(v@),
    ensures
        all_digits(r@),
        lsb_value(r@) == lsb_value(v@),
        r@.len() == if v@.len() >= n as int {
            v@.len() as int
        } else {
            n as int
        },
{
    let mut r = copy_digits(v);
    while r.len() < n
        invariant
            all_digits(r@),
            lsb_value(r@) == lsb_value(v@),
            r@.len() >= v@.len(),
            v@.len() >= n ==> r@.len() == v@.len(),
            r@.len() <= if v@.len() >= n as int {
                v@.len() as int
            } else {
                n as int
            },
        decreases n - r.len(),
    {
        proof {
            lemma_lsb_push_zero(r@);
        }
        r.push(0);
    }
    r
}

/// Digit-wise sum, least significant first, of the tails of `a` and `b` from
/// position `i` on, plus a carry.
pub fn add_lsb(a: &Vec<u8>, b: &Vec<u8>, i: usize, carry: u8) -> (r: Vec<u8>)
    requires
        all_digits(a@),
        all_digits(b@),
        a@.len() == b@.len(),
        i <= a@.len(),
        carry <= 1,
    ensures
        all_digits(r@),
        lsb_value(r@) == lsb_value(a@.skip(i as int)) + lsb_value(b@.skip(i as int)) + carry,
    decreases a@.len() - i,
{
    if i == a.len() {
        proof {
            assert(a@.skip(i as int) =~= Seq::<u8>::empty());
            assert(b@.skip(i as int) =~= Seq::<u8>::empty());
        }
        let mut r: Vec<u8> = Vec::new();
        if carry > 0 {
            r.push(carry);
            proof {
                assert(r@.drop_first() =~= Seq::<u8>::empty());
                assert(lsb_value(r@) == r@[0] + 10 * lsb_value(r@.drop_first()));
            }
        }
        r
    } else {
        assert(a@[i as int] < 10);
        assert(b@[i as int] < 10);
        let d: u8 = a[i] + b[i] + carry;
        let mut r = add_lsb(a, b, i + 1, d / 10);
        let ghost tail = r@;
        r.insert(0, d % 10);
        proof {
            assert(r@.drop_first() =~= tail);
            lemma_lsb_skip_step(a@, i as int);
            lemma_lsb_skip_step(b@, i as int);
            assert(lsb_value(r@) == r@[0] + 10 * lsb_value(r@.drop_first()));
        }
        r
    }
}

/// Digit-wise difference, least significant first, of the tails of `a` and
/// `b` from position `i` on, minus a borrow. The minuend tail must be at
/// least as large as the subtrahend tail plus the borrow.
pub fn sub_lsb(a: &Vec<u8>, b: &Vec<u8>, i: usize, borrow: u8) -> (r: Vec<u8>)
    requires
        all_digits(a@),
        all_digits(b@),
        a@.len() == b@.len(),
        i <= a@.len(),
        borrow <= 1,
        lsb_value(a@.skip(i as int)) >= lsb_value(b@.skip(i as int)) + borrow,
    ensures
        all_digits(r@),
        lsb_value(r@) == lsb_value(a@.skip(i as int)) - lsb_value(b@.skip(i as int)) - borrow,
    decreases a@.len() - i,
{
    if i == a.len() {
        proof {
            assert(a@.skip(i as int) =~= Seq::<u8>::empty());
            assert(b@.skip(i as int) =~= Seq::<u8>::empty());
        }
        Vec::new()
    } else {
        assert(a@[i as int] < 10);
        assert(b@[i as int] < 10);
        proof {
            lemma_lsb_skip_step(a@, i as int);
            lemma_lsb_skip_step(b@, i as int);
        }
        let (d, borrow2): (u8, u8) = if a[i] < b[i] + borrow {
            (a[i] + 10 - b[i] - borrow, 1)
        } else {
            (a[i] - b[i] - borrow, 0)
        };
        let mut r = sub_lsb(a, b, i + 1, borrow2);
        let ghost tail = r@;
        r.insert(0, d);
        proof {
            assert(r@.drop_first() =~= tail);
            assert(lsb_value(r@) == r@[0] + 10 * lsb_value(r@.drop_first()));
        }
        r
    }
}

/// Digit-wise product, least significant first, of the tail of `a` from
/// position `i` on with the single digit `d`, plus a carry.
pub fn mul_lsb(a: &Vec<u8>, i: usize, d: u8, carry: u8) -> (r: Vec<u8>)
    requires
        all_digits(a@),
        i <= a@.len(),
        d < 10,
        carry < 10,
    ensures
        all_digits(r@),
        lsb_value(r@) == lsb_value(a@.skip(i as int)) * d + carry,
    decreases a@.len() - i,
{
    if i == a.len() {
        proof {
            assert(a@.skip(i as int) =~= Seq::<u8>::empty());
            assert(lsb_value(a@.skip(i as int)) == 0);
            assert(lsb_value(a@.skip(i as int)) * d == 0) by {
                lemma_mul_by_zero_is_zero(d as int);
            }
        }
        let mut r: Vec<u8> = Vec::new();
        if carry > 0 {
            r.push(carry);
            proof {
                assert(r@.drop_first() =~= Seq::<u8>::empty());
                assert(lsb_value(r@) == r@[0] + 10 * lsb_value(r@.drop_first()));
            }
        }
        r
    } else {
        assert(a@[i as int] < 10);
        proof {
            lemma_mul_upper_bound(a@[i as int] as int, 9, d as int, 9);
        }
        let p: u8 = a[i] * d + carry;
        let mut r = mul_lsb(a, i + 1, d, p / 10);
        let ghost tail0 = r@;
        r.insert(0, p % 10);
        proof {
            assert(r@.drop_first() =~= tail0);
            lemma_lsb_skip_step(a@, i as int);
            assert(lsb_value(r@) == r@[0] + 10 * lsb_value(r@.drop_first()));
            let ai = a@[i as int] as int;
            let tail = lsb_value(a@.skip(i as int + 1)) as int;
            assert((ai + 10 * tail) * d == ai * d + 10 * (tail * d)) by (nonlinear_arith);
            assert(lsb_value(a@.skip(i as int)) == ai + 10 * tail);
            assert(lsb_value(tail0) == tail * d + p / 10);
            assert(p == ai * d + carry);
            assert(p % 10 + 10 * (p / 10) == p);
            assert(lsb_value(r@) == p % 10 + 10 * (tail * d + p / 10));
            assert(lsb_value(r@) == ai * d + carry + 10 * (tail * d));
            assert(lsb_value(r@) == (ai + 10 * tail) * d + carry);
            assert(lsb_value(r@) == lsb_value(a@.skip(i as int)) * d + carry);
        }
        r
    }
}

} // verus!

//! Decimal literals as character sequences: what they look like, what they
//! denote, and how values are rendered back into text.

use vstd::prelude::*;

verus! {

use crate::digits::all_digits;
use crate::digits::canonical;
use crate::digits::digits_value;


/// The character that renders a single decimal digit.
pub open spec fn char_of_digit(d: int) -> char {
    if d == 0 {
        '0'
    } else if d == 1 {
        '1'
    } else if d == 2 {
        '2'
    } else if d == 3 {
        '3'
    } else if d == 4 {
        '4'
    } else if d == 5 {
        '5'
    } else if d == 6 {
        '6'
    } else if d == 7 {
        '7'
    } else if d == 8 {
        '8'
    } else {
        '9'
    }
}

/// The decimal digit a character stands for, or -1 for any other character.
pub open spec fn digit_of_char(c: char) -> int {
    if c == '0' {
        0
    } else if c == '1' {
        1
    } else if c == '2' {
        2
    } else if c == '3' {
        3
    } else if c == '4' {
        4
    } else if c == '5' {
        5
    } else if c == '6' {
        6
    } else if c == '7' {
        7
    } else if c == '8' {
        8
    } else if c == '9' {
        9
    } else {
        -1
    }
}

/// Whether a character is an ASCII decimal digit.
pub open spec fn is_digit_char(c: char) -> bool {
    digit_of_char(c) >= 0
}

/// Whether every character of a sequence is a decimal digit.
pub open spec fn digit_chars(s: Seq<char>) -> bool {
    forall|i: int| 0 <= i < s.len() ==> is_digit_char(#[trigger] s[i])
}

/// The number a sequence of digit characters denotes, most significant first.
pub open spec fn chars_value(s: Seq<char>) -> int
    decreases s.len(),
{
    if s.len() == 0 {
        0
    } else {
        chars_value(s.drop_last()) * 10 + digit_of_char(s.last())
    }
}

/// The canonical decimal rendering of a natural number: no leading zeros,
/// except that zero itself is the single character `0`.
pub open spec fn nat_str(n: nat) -> Seq<char>
    decreases n,
{
    if n < 10 {
        seq![char_of_digit(n as int)]
    } else {
        nat_str(n / 10).push(char_of_digit((n % 10) as int))
    }
}

/// The canonical decimal rendering of an integer: a minus sign for negative
/// values, then the magnitude.
pub open spec fn int_str(v: int) -> Seq<char> {
    if v < 0 {
        seq!['-'] + nat_str((-v) as nat)
    } else {
        nat_str(v as nat)
    }
}

/// The digit characters of an integer literal, after any single leading sign.
pub open spec fn int_literal_body(s: Seq<char>) -> Seq<char> {
    if s.len() > 0 && (s[0] == '+' || s[0] == '-') {
        s.drop_first()
    } else {
        s
    }
}

/// Whether text is a well-formed integer literal: an optional sign followed
/// by one or more decimal digits and nothing else.
pub open spec fn is_int_literal(s: Seq<char>) -> bool {
    &&& int_literal_body(s).len() >= 1
    &&& digit_chars(int_literal_body(s))
}

/// The value an integer literal denotes.
pub open spec fn int_literal_value(s: Seq<char>) -> int {
    if s.len() > 0 && s[0] == '-' {
        -chars_value(int_literal_body(s))
    } else {
        chars_value(int_literal_body(s))
    }
}

/// The characters of a digit sequence.
pub open spec fn chars_of_digits(s: Seq<u8>) -> Seq<char> {
    s.map_values(|d: u8| char_of_digit(d as int))
}

/// Rendering digits as characters and reading them back is the identity on
/// the value.
pub proof fn lemma_chars_value_of_digits(s: Seq<u8>)
    requires
        all_digits(s),
    ensures
        digit_chars(chars_of_digits(s)),
        chars_value(chars_of_digits(s)) == digits_value(s),
    decreases s.len(),
{
    if s.len() == 0 {
        assert(chars_of_digits(s) =~= Seq::<char>::empty());
    } else {
        assert(all_digits(s.drop_last()));
        lemma_chars_value_of_digits(s.drop_last());
        let c = chars_of_digits(s);
        assert(c.drop_last() =~= chars_of_digits(s.drop_last()));
        assert(c.last() == char_of_digit(s.last() as int));
        assert(digit_of_char(char_of_digit(s.last() as int)) == s.last());
        assert(chars_value(c) == chars_value(c.drop_last()) * 10 + digit_of_char(c.last()));
    }
}

/// The canonical rendering of a natural number is made of digit characters.
pub proof fn lemma_nat_str_digits(n: nat)
    ensures
        nat_str(n).len() >= 1,
        digit_chars(nat_str(n)),
    decreases n,
{
    if n >= 10 {
        lemma_nat_str_digits(n / 10);
        assert(forall|i: int|
            0 <= i < nat_str(n).len() - 1 ==> nat_str(n)[i] == nat_str(n / 10)[i]);
    }
}

/// Reading the canonical rendering of a natural number back gives the number.
pub proof fn lemma_nat_str_value(n: nat)
    ensures
        chars_value(nat_str(n)) == n,
    decreases n,
{
    if n < 10 {
        assert(nat_str(n).drop_last() =~= Seq::<char>::empty());
        assert(chars_value(nat_str(n)) == chars_value(nat_str(n).drop_last()) * 10 + digit_of_char(
            nat_str(n).last(),
        ));
        assert(digit_of_char(char_of_digit(n as int)) == n);
    } else {
        lemma_nat_str_value(n / 10);
        let r = nat_str(n);
        assert(r.drop_last() =~= nat_str(n / 10));
        assert(r.last() == char_of_digit((n % 10) as int));
        assert(digit_of_char(char_of_digit((n % 10) as int)) == (n % 10) as int);
        assert(chars_value(r) == chars_value(r.drop_last()) * 10 + digit_of_char(r.last()));
        assert(n == 10 * (n / 10) + n % 10);
    }
}

/// The canonical rendering of the value of canonical digits is exactly their
/// characters.
pub proof fn lemma_nat_str_of_canonical(s: Seq<u8>)
    requires
        canonical(s),
    ensures
        nat_str(digits_value(s)) =~= chars_of_digits(s),
    decreases s.len(),
{
    let v = digits_value(s);
    if s.len() == 1 {
        assert(s.drop_last() =~= Seq::<u8>::empty());
        assert(digits_value(s) == digits_value(s.drop_last()) * 10 + s.last());
        assert(v < 10);
        assert(chars_of_digits(s) =~= seq![char_of_digit(s[0] as int)]);
    } else {
        let dl = s.drop_last();
        assert(dl[0] == s[0]);
        assert(canonical(dl));
        lemma_nat_str_of_canonical(dl);
        crate::digits::lemma_value_pos(dl);
        assert(v == digits_value(dl) * 10 + s.last());
        assert(v >= 10);
        vstd::arithmetic::div_mod::lemma_fundamental_div_mod_converse(
            v as int,
            10,
            digits_value(dl) as int,
            s.last() as int,
        );
        assert(v / 10 == digits_value(dl));
        assert(v % 10 == s.last());
        assert(nat_str(v) =~= nat_str(digits_value(dl)).push(char_of_digit(s.last() as int)));
        assert(chars_of_digits(s) =~= chars_of_digits(dl).push(char_of_digit(s.last() as int)));
    }
}

/// A digit character is neither a sign nor a slash.
pub proof fn lemma_digit_char_shape(c: char)
    requires
        is_digit_char(c),
    ensures
        c != '-',
        c != '+',
        c != '/',
{
}

/// Parsing the canonical decimal rendering of any integer gives back exactly
/// that integer: display and parse round-trip.
pub proof fn lemma_int_str_roundtrip(v: int)
    ensures
        is_int_literal(int_str(v)),
        int_literal_value(int_str(v)) == v,
{
    if v < 0 {
        let m = (-v) as nat;
        lemma_nat_str_digits(m);
        lemma_nat_str_value(m);
        let s = int_str(v);
        assert(s[0] == '-');
        assert(s.drop_first() =~= nat_str(m));
    } else {
        lemma_nat_str_digits(v as nat);
        lemma_nat_str_value(v as nat);
        let s = int_str(v);
        assert(is_digit_char(s[0]));
        lemma_digit_char_shape(s[0]);
        assert(int_literal_body(s) =~= s);
    }
}

/// The rendering of an integer never contains a slash.
pub proof fn lemma_int_str_no_slash(v: int)
    ensures
        forall|i: int| 0 <= i < int_str(v).len() ==> int_str(v)[i] != '/',
{
    if v < 0 {
        let m = (-v) as nat;
        lemma_nat_str_digits(m);
        assert(forall|i: int|
            1 <= i < int_str(v).len() ==> int_str(v)[i] == nat_str(m)[i - 1]);
        assert(forall|i: int| 0 <= i < nat_str(m).len() ==> nat_str(m)[i] != '/') by {
            assert(forall|i: int| 0 <= i < nat_str(m).len() ==> is_digit_char(#[trigger] nat_str(m)[i]));
        }
    } else {
        lemma_nat_str_digits(v as nat);
    }
}

/// A digit character is recovered from its digit value.
pub proof fn lemma_char_digit_inverse(c: char)
    requires
        is_digit_char(c),
    ensures
        char_of_digit(digit_of_char(c)) == c,
{
}

/// The decimal digit a character stands for, if it is one.
pub fn char_digit(c: char) -> (r: Option<u8>)
    ensures
        r.is_some() == is_digit_char(c),
        r.is_some() ==> r.unwrap() as int == digit_of_char(c) && r.unwrap() < 10,
{
    if c == '0' {
        Some(0)
    } else if c == '1' {
        Some(1)
    } else if c == '2' {
        Some(2)
    } else if c == '3' {
        Some(3)
    } else if c == '4' {
        Some(4)
    } else if c == '5' {
        Some(5)
    } else if c == '6' {
        Some(6)
    } else if c == '7' {
        Some(7)
    } else if c == '8' {
        Some(8)
    } else if c == '9' {
        Some(9)
    } else {
        None
    }
}

/// The one-character string that renders a decimal digit.
pub fn digit_str(d: u8) -> (r: &'static str)
    requires
        d < 10,
    ensures
        r@ =~= seq![char_of_digit(d as int)],
{
    proof {
        reveal_strlit("0");
        reveal_strlit("1");
        reveal_strlit("2");
        reveal_strlit("3");
        reveal_strlit("4");
        reveal_strlit("5");
        reveal_strlit("6");
        reveal_strlit("7");
        reveal_strlit("8");
        reveal_strlit("9");
    }
    if d == 0 {
        "0"
    } else if d == 1 {
        "1"
    } else if d == 2 {
        "2"
    } else if d == 3 {
        "3"
    } else if d == 4 {
        "4"
    } else if d == 5 {
        "5"
    } else if d == 6 {
        "6"
    } else if d == 7 {
        "7"
    } else if d == 8 {
        "8"
    } else {
        "9"
    }
}

} // verus!

use bigcalc::big_num::BigNum;
use bigcalc::common::Value;
use bigcalc::error::{EvalError, LiteralKind};
use bigcalc::eval_to_string;
use bigcalc::frac::{Frac, IntoFrac};
use bigcalc::parser::{lex, Expr, Operator, Parser, Token};

fn num(text: &str) -> BigNum {
    BigNum::from_str(text).unwrap()
}

#[test]
fn scenario_precedence() {
    assert_eq!(eval_to_string("1+2*3".to_string()).unwrap(), "7");
}

#[test]
fn scenario_parentheses() {
    assert_eq!(eval_to_string("(1+2)*3".to_string()).unwrap(), "9");
}

#[test]
fn scenario_inexact_division_promotes() {
    assert_eq!(eval_to_string("5/2".to_string()).unwrap(), "5/2");
}

#[test]
fn scenario_exact_division_collapses() {
    assert_eq!(eval_to_string("4/2".to_string()).unwrap(), "2");
}

#[test]
fn scenario_division_by_zero() {
    assert_eq!(
        eval_to_string("1/0".to_string()).err().unwrap(),
        EvalError::DivisionByZero
    );
}

#[test]
fn scenario_unexpected_end() {
    assert_eq!(
        eval_to_string("2+".to_string()).err().unwrap(),
        EvalError::ParseError
    );
}

#[test]
fn add_then_sub_restores() {
    for (a, b) in [("123", "456"), ("-7", "19"), ("0", "-5"), ("99999999999999", "-1")] {
        let a = num(a);
        let b = num(b);
        let back = a.add(&b).sub(&b);
        assert_eq!(back, a);
    }
}

#[test]
fn mul_by_one_is_identity() {
    for a in ["0", "17", "-230000000000001"] {
        let a = num(a);
        assert_eq!(a.mul(&BigNum::one()), a);
    }
}

#[test]
fn sub_self_is_positive_zero() {
    for a in ["0", "8", "-12345678901234567890"] {
        let a = num(a);
        let zero = a.sub(&a);
        assert_eq!(zero, BigNum::zero());
        assert!(!zero.is_negative());
        assert!(zero.is_zero());
    }
}

#[test]
fn gcd_divides_both_operands() {
    let a = num("-36");
    let b = num("60");
    let g = a.gcd(&b).unwrap();
    assert_eq!(g, num("12"));
    assert!(a.rem(&g).unwrap().is_zero());
    assert!(b.rem(&g).unwrap().is_zero());
}

#[test]
fn gcd_with_zero_is_magnitude() {
    assert_eq!(num("-42").gcd(&BigNum::zero()).unwrap(), num("42"));
    assert_eq!(BigNum::zero().gcd(&num("9")).unwrap(), num("9"));
}

#[test]
fn gcd_of_two_zeroes_is_undefined() {
    let e = BigNum::zero().gcd(&BigNum::zero()).err().unwrap();
    assert_eq!(e, EvalError::UndefinedError);
    assert_eq!(e.message(), "GCD of 2 zeroes is undefined");
}

#[test]
fn construction_normalizes_fractions() {
    for (n, d, canon_n, canon_d) in [
        ("4", "-6", "-2", "3"),
        ("-4", "-6", "2", "3"),
        ("0", "-7", "0", "1"),
        ("30", "5", "6", "1"),
    ] {
        let f = Frac::new(num(n), num(d)).unwrap();
        assert_eq!(f.numerator(), &num(canon_n));
        assert_eq!(f.denominator(), &num(canon_d));
        assert!(!f.denominator().is_negative());
        assert!(f.is_simplified());
    }
}

#[test]
fn fraction_with_zero_denominator_is_refused() {
    let e = Frac::new(num("3"), BigNum::zero()).err().unwrap();
    assert_eq!(e, EvalError::DivisionByZero);
}

#[test]
fn simplify_is_idempotent() {
    let collapsing = Value::Frac(Frac::new(num("4"), num("1")).unwrap());
    let once = collapsing.simplify();
    assert_eq!(once, Value::Number(num("4")));
    let twice = once.clone().simplify();
    assert_eq!(twice, once);

    let proper = Value::Frac(Frac::new(num("5"), num("2")).unwrap()).simplify();
    let again = proper.clone().simplify();
    assert_eq!(again, proper);
    assert_eq!(proper.to_string(), "5/2");
}

#[test]
fn bignum_display_parse_roundtrip() {
    for text in ["0", "7", "-7", "12345678901234567890", "-999"] {
        let a = num(text);
        let shown = a.to_string();
        assert_eq!(shown, text);
        assert_eq!(BigNum::from_str(&shown).unwrap(), a);
    }
}

#[test]
fn fraction_display_parse_roundtrip() {
    for (n, d) in [("1", "2"), ("-3", "7"), ("0", "9"), ("25", "5")] {
        let f = Frac::new(num(n), num(d)).unwrap();
        let shown = f.to_string();
        let back = Frac::from_str(&shown).unwrap();
        assert_eq!(back, f);
    }
}

#[test]
fn bignum_parse_accepts_signs_only_with_digits() {
    assert_eq!(BigNum::from_str("+42").unwrap(), num("42"));
    assert_eq!(BigNum::from_str("-0").unwrap(), BigNum::zero());
    assert_eq!(
        BigNum::from_str("").err().unwrap(),
        EvalError::FormatError(LiteralKind::Integer)
    );
    assert_eq!(
        BigNum::from_str("-").err().unwrap(),
        EvalError::FormatError(LiteralKind::Integer)
    );
    assert_eq!(
        BigNum::from_str("12a3").err().unwrap(),
        EvalError::FormatError(LiteralKind::Integer)
    );
}

#[test]
fn lexer_reports_the_offending_character() {
    assert_eq!(
        eval_to_string("2+a".to_string()).err().unwrap(),
        EvalError::LexError('a')
    );
}

#[test]
fn lexer_ends_stream_with_terminator() {
    let tokens = lex("12+(3*4)".to_string()).unwrap();
    assert!(matches!(tokens.last().unwrap(), Token::End));
    assert!(matches!(tokens[0], Token::Number(_)));
}

#[test]
fn parser_rejects_unbalanced_parentheses() {
    let tokens = lex("(1+2".to_string()).unwrap();
    let mut parser = Parser::new(tokens);
    assert_eq!(parser.parse().err().unwrap(), EvalError::ParseError);
}

#[test]
fn evaluation_mixes_integers_and_fractions() {
    assert_eq!(eval_to_string("1/2+1/3".to_string()).unwrap(), "5/6");
    assert_eq!(eval_to_string("1-5/2".to_string()).unwrap(), "-3/2");
    assert_eq!(eval_to_string("1/2*4".to_string()).unwrap(), "2");
    assert_eq!(eval_to_string("3/(1/2)".to_string()).unwrap(), "6");
}

#[test]
fn evaluation_handles_negation_and_whitespace() {
    assert_eq!(eval_to_string(" 1 +  2 ".to_string()).unwrap(), "3");
    assert_eq!(eval_to_string("-3*2".to_string()).unwrap(), "-6");
    assert_eq!(eval_to_string("--2".to_string()).unwrap(), "2");
    assert_eq!(eval_to_string("2--3".to_string()).unwrap(), "5");
}

#[test]
fn evaluation_is_exact_on_large_numbers() {
    assert_eq!(
        eval_to_string("99999999999999999999*2".to_string()).unwrap(),
        "199999999999999999998"
    );
    assert_eq!(
        eval_to_string("10000000000000000000-1".to_string()).unwrap(),
        "9999999999999999999"
    );
}

#[test]
fn nested_division_checks_divisor_first() {
    assert_eq!(
        eval_to_string("1/(2-2)".to_string()).err().unwrap(),
        EvalError::DivisionByZero
    );
    assert_eq!(
        eval_to_string("(1/0)+9".to_string()).err().unwrap(),
        EvalError::DivisionByZero
    );
}

#[test]
fn integral_fractions_convert_to_bignum() {
    let f = Frac::new(num("8"), num("4")).unwrap();
    assert!(f.is_bignum());
    assert_eq!(f.to_bignum().unwrap(), num("2"));

    let g = Frac::new(num("8"), num("3")).unwrap();
    assert!(!g.is_bignum());
    assert_eq!(g.to_bignum().err().unwrap(), EvalError::NotIntegral);
}

#[test]
fn into_frac_embeds_integers() {
    let f = num("5").to_frac();
    assert_eq!(f.numerator(), &num("5"));
    assert_eq!(f.denominator(), &num("1"));
    let g = Frac::new(num("1"), num("2")).unwrap().to_frac();
    assert_eq!(g, Frac::from_str("1/2").unwrap());
}

#[test]
fn remainder_takes_the_dividend_sign() {
    assert_eq!(num("7").rem(&num("-3")).unwrap(), num("1"));
    assert_eq!(num("-7").rem(&num("3")).unwrap(), num("-1"));
    assert_eq!(num("6").rem(&num("3")).unwrap(), BigNum::zero());
    assert!(!num("-6").rem(&num("3")).unwrap().is_negative());
}

#[test]
fn division_by_zero_is_refused_everywhere() {
    assert_eq!(num("3").div(&BigNum::zero()).err().unwrap(), EvalError::DivisionByZero);
    assert_eq!(num("3").rem(&BigNum::zero()).err().unwrap(), EvalError::DivisionByZero);
    let half = Frac::new(num("1"), num("2")).unwrap();
    let zero = Frac::new(num("0"), num("2")).unwrap();
    assert_eq!(half.div(&zero).err().unwrap(), EvalError::DivisionByZero);
    assert_eq!(zero.inverse().err().unwrap(), EvalError::DivisionByZero);
}

#[test]
fn parse_normalizes_leading_zeros() {
    assert_eq!(num("007"), num("7"));
    assert_eq!(eval_to_string("007".to_string()).unwrap(), "7");
}

#[test]
fn expr_eval_walks_the_tree() {
    let sum = Expr::BinExpr(
        Operator::Add,
        Box::new(Expr::ValExpr(Value::Number(num("1")))),
        Box::new(Expr::ValExpr(Value::Number(num("2")))),
    );
    let product = Expr::BinExpr(
        Operator::Multiply,
        Box::new(sum),
        Box::new(Expr::ValExpr(Value::Number(num("3")))),
    );
    assert_eq!(product.eval().unwrap(), Value::Number(num("9")));

    let negated = Expr::UnaryExpr(
        Operator::Negative,
        Box::new(Expr::ValExpr(Value::Number(num("5")))),
    );
    assert_eq!(negated.eval().unwrap(), Value::Number(num("-5")));
}

#[test]
fn value_arithmetic_dispatches_across_kinds() {
    let half = Value::Frac(Frac::new(num("1"), num("2")).unwrap());
    let two = Value::Number(num("2"));
    assert_eq!(two.add(&half).to_string(), "5/2");
    assert_eq!(two.sub(&half).to_string(), "3/2");
    assert_eq!(half.mul(&two).to_string(), "1");
    assert_eq!(two.div(&half).unwrap().to_string(), "4");
    assert_eq!(half.neg().to_string(), "-1/2");
    assert_eq!(
        two.div(&Value::Number(BigNum::zero())).err().unwrap(),
        EvalError::DivisionByZero
    );
}

#[test]
fn values_report_zero() {
    assert!(Value::Number(BigNum::zero()).is_zero());
    assert!(!Value::Number(num("-4")).is_zero());
    assert!(!Value::Frac(Frac::new(num("1"), num("2")).unwrap()).is_zero());
}

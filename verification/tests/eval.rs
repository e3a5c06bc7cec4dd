use mini_bitcask::expr::{Expr, ExprError, Token};

fn eval(src: &str) -> Result<i32, ExprError> {
    let mut expr = Expr::new(src);
    expr.eval()
}

#[test]
fn test_eval_mixed_expression() {
    assert_eq!(eval("92 + 5 + 5 * 27 - (92 - 12) / 4 + 26").unwrap(), 238);
}

#[test]
fn test_eval_precedence() {
    assert_eq!(eval("2+3*4").unwrap(), 14);
    assert_eq!(eval("2*3+4").unwrap(), 10);
    assert_eq!(eval("10-4-3").unwrap(), 3);
}

#[test]
fn test_eval_parentheses() {
    assert_eq!(eval("(2+3)*4").unwrap(), 20);
    assert_eq!(eval("((2))").unwrap(), 2);
}

#[test]
fn test_eval_power_right_associative() {
    assert_eq!(eval("2 ^ 3 ^ 2").unwrap(), 512);
    assert_eq!(eval("2^10").unwrap(), 1024);
    assert_eq!(eval("7^0").unwrap(), 1);
}

#[test]
fn test_eval_division_truncates_toward_zero() {
    assert_eq!(eval("7/2").unwrap(), 3);
    assert_eq!(eval("(0-7)/2").unwrap(), -3);
    assert_eq!(eval("7/(0-2)").unwrap(), -3);
}

#[test]
fn test_eval_division_by_zero_fails() {
    assert!(eval("1/0").is_err());
    assert!(eval("5/(3-3)").is_err());
}

#[test]
fn test_eval_overflow_fails() {
    assert_eq!(eval("2147483647").unwrap(), i32::MAX);
    assert!(eval("2147483647+1").is_err());
    assert!(eval("2^31").is_err());
    assert!(eval("65536*65536").is_err());
}

#[test]
fn test_eval_parse_errors() {
    assert!(eval("").is_err());
    assert!(eval("1+").is_err());
    assert!(eval("(1+2").is_err());
    assert!(eval(")").is_err());
    let r = eval("+");
    assert!(matches!(r, Err(ExprError::Parse(_))));
}

#[test]
fn test_eval_stops_at_unknown_character() {
    // the tokenizer ends the stream at a character no token starts with,
    // and what was read so far is evaluated
    assert_eq!(eval("1+2%").unwrap(), 3);
    assert_eq!(eval("5 five").unwrap(), 5);
    // an overlong digit run also ends the stream, here before any token
    assert!(eval("99999999999").is_err());
}

#[test]
fn test_eval_whitespace() {
    assert_eq!(eval("   12   ").unwrap(), 12);
    assert_eq!(eval("\t1 +\n2").unwrap(), 3);
}

#[test]
fn test_token_properties() {
    assert!(Token::Plus.is_operator());
    assert!(Token::Power.is_operator());
    assert!(!Token::LeftParen.is_operator());
    assert!(!Token::Number(3).is_operator());

    assert_eq!(Token::Plus.precedence(), 1);
    assert_eq!(Token::Minus.precedence(), 1);
    assert_eq!(Token::Multiply.precedence(), 2);
    assert_eq!(Token::Divide.precedence(), 2);
    assert_eq!(Token::Power.precedence(), 3);

    assert_eq!(Token::Plus.assoc(), mini_bitcask::expr::ASSOC_LEFT);
    assert_eq!(Token::Power.assoc(), mini_bitcask::expr::ASSOC_RIGHT);

    assert_eq!(Token::Plus.compute(2, 3), Some(5));
    assert_eq!(Token::Minus.compute(2, 3), Some(-1));
    assert_eq!(Token::Multiply.compute(4, 5), Some(20));
    assert_eq!(Token::Divide.compute(9, 2), Some(4));
    assert_eq!(Token::Power.compute(3, 4), Some(81));
    assert_eq!(Token::Divide.compute(1, 0), None);
    assert_eq!(Token::Power.compute(2, -1), None);
    assert_eq!(Token::Number(1).compute(2, 3), None);
}

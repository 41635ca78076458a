use exprparse::lexer::lex;
use exprparse::parse_and_evaluate;
use exprparse::BinOp;
use exprparse::Expr;
use exprparse::Postfix;
use exprparse::PostfixError;

fn eval_f64(e: &Expr) -> f64 {
    match e {
        Expr::Num(n) => n.parse::<f64>().unwrap(),
        Expr::Bin(op, l, r) => {
            let a = eval_f64(l);
            let b = eval_f64(r);
            match op {
                BinOp::Add => a + b,
                BinOp::Sub => a - b,
                BinOp::Mul => a * b,
                BinOp::Div => a / b,
                BinOp::Exp => a.powf(b),
            }
        },
    }
}

#[test]
fn test_parse_and_evaluate_entry_point() {
    let tree = parse_and_evaluate("2 + 3 * 4").unwrap();
    assert_eq!(eval_f64(&tree), 14.0);
    assert_eq!(parse_and_evaluate("").unwrap_err(), PostfixError::EmptyString);
    assert_eq!(
        parse_and_evaluate("2 + a").unwrap_err(),
        PostfixError::ParseError
    );
}

#[test]
fn test_whitespace_only_is_empty_string() {
    assert_eq!(
        Postfix::from_infix(" \t\r\n ").unwrap_err(),
        PostfixError::EmptyString
    );
}

#[test]
fn test_more_whitespace_forms() {
    let p = Postfix::from_infix("2 \r\n +\t 3").unwrap();
    assert_eq!(p.render(), "[2][3]+");
    assert_eq!(eval_f64(&p.evaluate().unwrap()), 5.0);
}

#[test]
fn test_unicode_whitespace_between_tokens() {
    let p = Postfix::from_infix("2\u{a0}+\u{2009}3").unwrap();
    assert_eq!(p.render(), "[2][3]+");
    assert_eq!(eval_f64(&p.evaluate().unwrap()), 5.0);
    let q = Postfix::from_infix("\u{3000}2\u{2028}*\u{1680}4\u{85}").unwrap();
    assert_eq!(q.render(), "[2][4]*");
    assert_eq!(eval_f64(&q.evaluate().unwrap()), 8.0);
}

#[test]
fn test_unicode_whitespace_only_is_empty_string() {
    assert_eq!(
        Postfix::from_infix("\u{a0}").unwrap_err(),
        PostfixError::EmptyString
    );
    assert_eq!(
        Postfix::from_infix("\u{2028}\u{205f}\u{202f}").unwrap_err(),
        PostfixError::EmptyString
    );
}

#[test]
fn test_unmatched_open_is_drained_into_output() {
    // The trailing opening parenthesis is drained into the postfix output,
    // so conversion succeeds; evaluation then underflows on it.
    let p = Postfix::from_infix("(2 + 3").unwrap();
    assert_eq!(p.render(), "[2][3]+(");
    assert_eq!(p.evaluate().unwrap_err(), PostfixError::ParseError);
}

#[test]
fn test_leftover_operands_are_discarded() {
    // Two numbers with no operator: the last one is the result, the rest of
    // the operand stack is silently dropped.
    let p = Postfix::from_infix("2 3").unwrap();
    assert_eq!(p.render(), "[2][3]");
    assert_eq!(eval_f64(&p.evaluate().unwrap()), 3.0);
}

#[test]
fn test_minus_digit_lexes_as_negative_literal() {
    // A minus directly followed by a digit is the sign of a literal, even
    // right after a number: "5-2" is two numbers, not a subtraction.
    let p = Postfix::from_infix("5-2").unwrap();
    assert_eq!(p.render(), "[5][-2]");
    assert_eq!(eval_f64(&p.evaluate().unwrap()), -2.0);
    let q = Postfix::from_infix("5 - 2").unwrap();
    assert_eq!(q.render(), "[5][2]-");
    assert_eq!(eval_f64(&q.evaluate().unwrap()), 3.0);
}

#[test]
fn test_division_by_zero_is_infinite() {
    let tree = parse_and_evaluate("1 / 0").unwrap();
    assert!(eval_f64(&tree).is_infinite());
}

#[test]
fn test_fractional_and_negative_exponent() {
    let tree = parse_and_evaluate("4 ^ 0.5").unwrap();
    assert!((eval_f64(&tree) - 2.0).abs() < 1e-9);
    let neg = parse_and_evaluate("2 ^ -1").unwrap();
    assert!((eval_f64(&neg) - 0.5).abs() < 1e-9);
}

#[test]
fn test_bad_numeral_shapes_are_parse_errors() {
    assert_eq!(
        Postfix::from_infix("2.").unwrap_err(),
        PostfixError::ParseError
    );
    assert_eq!(
        Postfix::from_infix(".5").unwrap_err(),
        PostfixError::ParseError
    );
    assert_eq!(
        Postfix::from_infix("2.5.6").unwrap_err(),
        PostfixError::ParseError
    );
}

#[test]
fn test_render_then_relex_keeps_ordering() {
    // Blanking the brackets out of the rendering and lexing the text again
    // gives back the same operator and operand ordering.
    let p = Postfix::from_infix("2 + 3 * 4").unwrap();
    let rendered = p.render();
    let cleaned: String = rendered
        .chars()
        .map(|c| if c == '[' || c == ']' { ' ' } else { c })
        .collect();
    let toks = lex(&cleaned).unwrap();
    assert_eq!(
        format!("{:?}", toks),
        "[Number(\"2\"), Number(\"3\"), Number(\"4\"), Mul, Add]"
    );
}

#[test]
fn test_lexer_rejects_stray_characters() {
    assert!(lex("2 # 3").is_err());
    assert!(lex("2 . 3").is_err());
    assert!(lex("12 34.5 ^(").is_ok());
}

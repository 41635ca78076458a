use exprparse::BinOp;
use exprparse::Expr;
use exprparse::Postfix;
use exprparse::PostfixError;

fn eval_f64(e: &Expr) -> f64 {
    match e {
        Expr::Num(n) => n.parse::<f64>().unwrap(),
        Expr::Bin(op, l, r) => {
            let a = eval_f64(l);
            let b = eval_f64(r);
            match op {
                BinOp::Add => a + b,
                BinOp::Sub => a - b,
                BinOp::Mul => a * b,
                BinOp::Div => a / b,
                BinOp::Exp => a.powf(b),
            }
        },
    }
}

fn assert_postfix_result(infix: &str, expected_postfix: &str, expected_value: Option<f64>) {
    match Postfix::from_infix(infix) {
        Ok(postfix) => {
            assert_eq!(
                postfix.render(),
                expected_postfix,
                "Postfix conversion failed for '{}'",
                infix
            );
            if let Some(expected) = expected_value {
                let eval_result = postfix.evaluate();
                assert!(eval_result.is_ok(), "Evaluation failed for '{}'", infix);
                let value = eval_f64(&eval_result.unwrap());
                assert!(
                    (value - expected).abs() < 1e-9,
                    "Evaluation result mismatch for '{}'",
                    infix
                );
            }
        },
        Err(err) => panic!("Unexpected error for '{}': {:?}", infix, err),
    }
}

fn assert_postfix_error(infix: &str, expected_error: PostfixError) {
    match Postfix::from_infix(infix).and_then(|pf| pf.evaluate()) {
        Ok(_) => panic!(
            "Expected error for '{}', but got a valid postfix expression",
            infix
        ),
        Err(err) => assert_eq!(err, expected_error),
    }
}

#[test]
fn test_basic_arithmetic() {
    assert_postfix_result("2 + 3", "[2][3]+", Some(5.0));
    assert_postfix_result("5 - 3", "[5][3]-", Some(2.0));
    assert_postfix_result("4 * 3", "[4][3]*", Some(12.0));
    assert_postfix_result("6 / 3", "[6][3]/", Some(2.0));
    assert_postfix_result("2 ^ 3", "[2][3]^", Some(8.0));
}

#[test]
fn test_complex_expressions() {
    assert_postfix_result("2 + 3 * 4", "[2][3][4]*+", Some(14.0));
    assert_postfix_result("(2 + 3) * 4", "[2][3]+[4]*", Some(20.0));
    assert_postfix_result("((2 + 3) * (4 - 1)) / 3", "[2][3]+[4][1]-*[3]/", Some(5.0));
}

#[test]
fn test_edge_cases() {
    assert_postfix_result("2(3 + 4)", "[2][3][4]+*", Some(14.0));
    assert_postfix_result("-2 + 3", "[-2][3]+", Some(1.0));
    assert_postfix_result("-3^2", "[-3][2]^", Some(9.0));
    assert_postfix_error("", PostfixError::EmptyString);
    assert_postfix_error("2 + a", PostfixError::ParseError);
}

#[test]
fn test_floating_point() {
    assert_postfix_result("2.5 * 4", "[2.5][4]*", Some(10.0));
    assert_postfix_result("3 + 2.5 * 4", "[3][2.5][4]*+", Some(13.0));
    assert_postfix_result("10 / 4", "[10][4]/", Some(2.5));
}

#[test]
fn test_whitespace_handling() {
    assert_postfix_result("  2   +   3   ", "[2][3]+", Some(5.0));
    assert_postfix_result("2\n+\t3", "[2][3]+", Some(5.0));
}

#[test]
fn test_operator_precedence() {
    assert_postfix_result("5 - 2 + 1", "[5][2]-[1]+", Some(4.0));
    assert_postfix_result("2 ^ 3 ^ 2", "[2][3]^[2]^", Some(64.0));
}

#[test]
fn test_error_cases() {
    assert_postfix_error("(2 + 3", PostfixError::ParseError);
    assert_postfix_error("2 + 3)", PostfixError::ParseError);
    assert_postfix_error("2 +", PostfixError::ParseError);
}

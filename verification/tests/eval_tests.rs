use flatcalc::{evaluate, EvalError, Rational};

fn val(res: Result<Rational, EvalError>) -> f64 {
    let r = res.unwrap();
    r.num() as f64 / r.den() as f64
}

#[test]
fn tests() {
    assert_eq!(val(evaluate("3a2c4")), 20.);
    assert_eq!(val(evaluate("32a2d2")), 17.);
    assert_eq!(val(evaluate("500a10b66c32")), 14208.);
    assert_eq!(val(evaluate("3ae4c66fb32")), 235.);
    assert_eq!(val(evaluate("3c4d2aee2a4c41fc4f")), 990.);

    assert_eq!(val(evaluate("3")), 3.);
    assert_eq!(val(evaluate("2a2a2")), 6.);
    assert_eq!(val(evaluate("2b3c4")), -4.);
    assert_eq!(val(evaluate("4c3b2d4")), 2.5);
    assert!(evaluate("4d0").is_err_and(|x| x == EvalError::DivisionByZero));
    assert!(evaluate("3ae4d0fb2").is_err_and(|x| x == EvalError::DivisionByZero));
    assert!(evaluate("3a2z4").is_err_and(|x| x == EvalError::InvalidCharacter));
    assert!(evaluate("32a2d2g").is_err_and(|x| x == EvalError::InvalidCharacter));
    assert!(evaluate("1ae1").is_err_and(|x| x == EvalError::InvalidBlock));
    assert!(evaluate("a").is_err_and(|x| x == EvalError::InvalidInput));
    assert!(evaluate("").is_err_and(|x| x == EvalError::InvalidInput));
}

#[test]
fn single_literal_exact() {
    let r = evaluate("12345").unwrap();
    assert_eq!(r.num(), 12345);
    assert_eq!(r.den(), 1);
    let z = evaluate("0").unwrap();
    assert_eq!(z.num(), 0);
    assert_eq!(z.den(), 1);
    let padded = evaluate("007").unwrap();
    assert_eq!(padded.num(), 7);
    assert_eq!(padded.den(), 1);
}

#[test]
fn left_to_right_fold() {
    assert_eq!(val(evaluate("2a2a2")), 6.);
    assert_eq!(val(evaluate("2b3c4")), -4.);
}

#[test]
fn division_is_exact() {
    let r = evaluate("4c3b2d4").unwrap();
    assert_eq!(r.num(), 10);
    assert_eq!(r.den(), 4);
    assert_eq!(val(Ok(r)), 2.5);
    assert!(!r.is_integer());
}

#[test]
fn division_by_zero_propagates_from_group() {
    assert!(evaluate("4d0").is_err_and(|x| x == EvalError::DivisionByZero));
    assert!(evaluate("3ae4d0fb2").is_err_and(|x| x == EvalError::DivisionByZero));
}

#[test]
fn group_nesting() {
    assert_eq!(val(evaluate("3ae4c66fb32")), 235.);
    assert_eq!(val(evaluate("3c4d2aee2a4c41fc4f")), 990.);
}

#[test]
fn unbalanced_group() {
    assert!(evaluate("1ae1").is_err_and(|x| x == EvalError::InvalidBlock));
    assert!(evaluate("e").is_err_and(|x| x == EvalError::InvalidBlock));
}

#[test]
fn invalid_character() {
    assert!(evaluate("3a2z4").is_err_and(|x| x == EvalError::InvalidCharacter));
    assert!(evaluate("32a2d2g").is_err_and(|x| x == EvalError::InvalidCharacter));
}

#[test]
fn degenerate_input() {
    assert!(evaluate("").is_err_and(|x| x == EvalError::InvalidInput));
    assert!(evaluate("a").is_err_and(|x| x == EvalError::InvalidInput));
}

#[test]
fn overflow_is_reported() {
    let wide = "9".repeat(40);
    assert!(evaluate(&wide).is_err_and(|x| x == EvalError::Overflow));
}

#[test]
fn round_trip_whole_number() {
    let r = evaluate("32a2d2").unwrap();
    assert!(r.is_integer());
    assert!(r.num() >= 0);
    let digits: String = r.integer_digits().into_iter().collect();
    assert_eq!(digits, "17");
    let again = evaluate(&digits).unwrap();
    assert_eq!(again.num(), 17);
    assert_eq!(again.den(), 1);
}

#[test]
fn round_trip_after_division() {
    let r = evaluate("8d2").unwrap();
    assert!(r.is_integer());
    let digits: String = r.integer_digits().into_iter().collect();
    assert_eq!(digits, "4");
    assert_eq!(val(evaluate(&digits)), val(evaluate("8d2")));
}

#[test]
fn nested_group_markers_not_copied() {
    // The extractor drops inner open markers and non-final close markers
    // from the inner text: the inner text of the outer group here is "12".
    let r = evaluate("ee1f2f").unwrap();
    assert_eq!(r.num(), 12);
    assert_eq!(r.den(), 1);
}

#[test]
fn digit_after_group_resets_fold() {
    // With no pending operator and both slots full, a digit starts a new
    // fold, per the driver's reduction rules.
    let r = evaluate("1e2f3").unwrap();
    assert_eq!(r.num(), 3);
    assert_eq!(r.den(), 1);
}

#[test]
fn trailing_operator_returns_first_operand() {
    let r = evaluate("3a").unwrap();
    assert_eq!(r.num(), 3);
    assert_eq!(r.den(), 1);
}

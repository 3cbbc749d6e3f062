use n_calculator::calculate;
use n_calculator::check_expression;
use n_calculator::evaluate_expression;
use n_calculator::is_numeric;
use n_calculator::replace_constants;
use n_calculator::Dec;
use n_calculator::EvalError;
use n_calculator::MathError;

const SCALE: u128 = 1_000_000_000_000_000;

#[test]
fn lib_expression() {
    assert_eq!(evaluate_expression("2 1 + 3 * 2 ^"), Ok(Dec::from_int(81)));
}

#[test]
fn math_expression() {
    assert_eq!(evaluate_expression("2 1 + 3 * 2 ^"), Ok(Dec::from_int(81)));
}

#[test]
fn full_pipeline_exact() {
    assert_eq!(calculate("2 1 + 3 * 2 ^"), Ok(Dec::from_int(81)));
}

#[test]
fn validator_rejects_too_few_tokens() {
    assert!(!check_expression("1 +"));
    assert!(!check_expression(""));
    assert!(!check_expression("5"));
}

#[test]
fn validator_rejects_unknown_operator() {
    assert!(!check_expression("1 2 ? "));
    assert!(!check_expression("1 2 ?"));
}

#[test]
fn validator_rejects_operator_before_two_values() {
    assert!(!check_expression("+ 1 2"));
    assert!(!check_expression("1 + 2"));
}

#[test]
fn validator_rejects_midway_underflow() {
    // A cumulative count of numeric tokens would let this through; the
    // stack-depth rule rejects it because the second `+` lacks operands.
    assert!(!check_expression("1 2 + + 3"));
}

#[test]
fn validator_accepts_valid_postfix() {
    assert!(check_expression("2 1 + 3 * 2 ^"));
    assert!(check_expression("1 2 +"));
}

#[test]
fn evaluator_basic_arithmetic() {
    assert_eq!(evaluate_expression("1 2 +"), Ok(Dec::from_int(3)));
    assert_eq!(evaluate_expression("5 2 -"), Ok(Dec::from_int(3)));
    assert_eq!(evaluate_expression("4 3 *"), Ok(Dec::from_int(12)));
    assert_eq!(
        evaluate_expression("1 2 /"),
        Ok(Dec { neg: false, mag: SCALE / 2 })
    );
    assert_eq!(evaluate_expression("2 -3 *"), Ok(Dec::from_int(-6)));
}

#[test]
fn evaluator_single_value() {
    assert_eq!(evaluate_expression("5"), Ok(Dec::from_int(5)));
}

#[test]
fn evaluator_reports_malformed() {
    assert_eq!(evaluate_expression("1 +"), Err(EvalError::Malformed));
    assert_eq!(evaluate_expression("1 2 ?"), Err(EvalError::Malformed));
    assert_eq!(evaluate_expression("1 2"), Err(EvalError::Malformed));
}

#[test]
fn division_by_zero_is_reported() {
    assert_eq!(
        evaluate_expression("1 0 /"),
        Err(EvalError::Arithmetic(MathError::DivisionByZero))
    );
}

#[test]
fn multiplication_overflow_is_reported() {
    assert_eq!(
        evaluate_expression("99999999999999999999 99999999999999999999 *"),
        Err(EvalError::Arithmetic(MathError::Overflow))
    );
}

#[test]
fn substitution_leaves_plain_expression_unchanged() {
    assert_eq!(replace_constants(String::from("1 2 +")), "1 2 +");
    assert_eq!(replace_constants(String::from("spike 7")), "spike 7");
}

#[test]
fn substitution_replaces_whole_tokens_only() {
    assert_eq!(
        replace_constants(String::from("pi 2 *")),
        "3.141592653589793 2 *"
    );
    assert_eq!(
        replace_constants(String::from("e 1 +")),
        "2.718281828459045 1 +"
    );
    // `pi` and `e` inside other tokens are untouched.
    assert_eq!(replace_constants(String::from("spin pi")), "spin 3.141592653589793");
    assert_eq!(replace_constants(String::from("epsilon e")), "epsilon 2.718281828459045");
    assert_eq!(replace_constants(String::from("3.14e2 1 +")), "3.14e2 1 +");
}

#[test]
fn substitution_is_idempotent() {
    let once = replace_constants(String::from("pi e *"));
    let twice = replace_constants(once.clone());
    assert_eq!(once, twice);
}

#[test]
fn pi_expression_evaluates() {
    let r = calculate("pi 2 *").unwrap();
    // 2 * pi to the working precision
    assert_eq!(r, Dec { neg: false, mag: 6_283_185_307_179_586 });
}

#[test]
fn is_numeric_classification() {
    assert!(is_numeric("0"));
    assert!(is_numeric("81"));
    assert!(is_numeric("-2"));
    assert!(is_numeric("+3"));
    assert!(is_numeric("1.5"));
    assert!(is_numeric("5."));
    assert!(is_numeric("3.141592653589793238462643383279"));
    assert!(!is_numeric(""));
    assert!(!is_numeric(".5"));
    assert!(!is_numeric("1.2.3"));
    assert!(!is_numeric("abc"));
    assert!(!is_numeric("+"));
    assert!(!is_numeric("-"));
    assert!(!is_numeric("1e5"));
}

#[test]
fn stale_result_on_invalid_input() {
    // The caller keeps its previous value when validation fails: nothing is
    // computed and the error is distinguishable.
    assert_eq!(calculate("1 +"), Err(EvalError::Malformed));
}

#[test]
fn validated_streams_never_report_malformed() {
    // The validator and the evaluator classify tokens through the same
    // predicate, so a validated stream evaluates to a value or at worst to
    // an arithmetic error — never to a malformed-expression error.
    for expr in ["2 1 + 3 * 2 ^", "1 2 +", "1 0 /", "10 3 /", "-1 0.5 ^"] {
        assert!(check_expression(expr));
        let r = evaluate_expression(expr);
        assert_ne!(r, Err(EvalError::Malformed));
    }
}

#[test]
fn arithmetic_error_on_validated_stream() {
    // "1 0 /" is structurally valid; the failure is arithmetic.
    assert!(check_expression("1 0 /"));
    assert_eq!(
        evaluate_expression("1 0 /"),
        Err(EvalError::Arithmetic(MathError::DivisionByZero))
    );
}

#[test]
fn double_spaces_make_empty_tokens_invalid() {
    assert!(!check_expression("1  2 +"));
    assert!(!check_expression(" 1 2 +"));
}

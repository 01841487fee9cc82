use minilisp::Environment;
use minilisp::EvalError;
use minilisp::Num;
use minilisp::ParseErrorKind;
use minilisp::Value;
use minilisp::evaluate;

#[test]
fn test_add() {
    let mut env = Environment::new();
    let result = evaluate("(+ 1 1)", &mut env).unwrap();
    assert_eq!(result, Value::Number(Num::from_int(2)));
}

#[test]
fn test_sub() {
    let mut env = Environment::new();
    let result = evaluate("(- 2 1)", &mut env).unwrap();
    assert_eq!(result, Value::Number(Num::from_int(1)));
}

#[test]
fn test_mul() {
    let mut env = Environment::new();
    let result = evaluate("(* 2.5 2)", &mut env).unwrap();
    assert_eq!(result, Value::Number(Num::from_int(5)));
}

#[test]
fn test_div() {
    let mut env = Environment::new();
    let result = evaluate("(/ 5 2)", &mut env).unwrap();
    assert_eq!(result, Value::Number(Num::ratio(5, 2).unwrap()));
}

#[test]
fn test_gt() {
    let mut env = Environment::new();
    let result = evaluate("(gt 5 2)", &mut env).unwrap();
    assert_eq!(result, Value::Number(Num::from_int(1)));
}

#[test]
fn test_gte() {
    let mut env = Environment::new();
    let result = evaluate("(gte 5 5)", &mut env).unwrap();
    assert_eq!(result, Value::Number(Num::from_int(1)));
}

#[test]
fn test_gte_neg() {
    let mut env = Environment::new();
    let result = evaluate("(gte 4 5)", &mut env).unwrap();
    assert_eq!(result, Value::Number(Num::from_int(0)));
}

#[test]
fn test_lt() {
    let mut env = Environment::new();
    let result = evaluate("(lt 4 5)", &mut env).unwrap();
    assert_eq!(result, Value::Number(Num::from_int(1)));
}

#[test]
fn test_eq() {
    let mut env = Environment::new();
    let result = evaluate("(eq 4 4)", &mut env).unwrap();
    assert_eq!(result, Value::Number(Num::from_int(1)));
}

#[test]
fn test_eq_neg() {
    let mut env = Environment::new();
    let result = evaluate("(eq 4 5)", &mut env).unwrap();
    assert_eq!(result, Value::Number(Num::from_int(0)));
}

#[test]
fn test_not() {
    let mut env = Environment::new();
    let result = evaluate("(not 1)", &mut env).unwrap();
    assert_eq!(result, Value::Number(Num::from_int(0)));
}

#[test]
fn test_not2() {
    let mut env = Environment::new();
    let result = evaluate("(not 0)", &mut env).unwrap();
    assert_eq!(result, Value::Number(Num::from_int(1)));
}

#[test]
fn test_not_eq() {
    let mut env = Environment::new();
    let result = evaluate("(not (eq 1 0))", &mut env).unwrap();
    assert_eq!(result, Value::Number(Num::from_int(1)));
}

#[test]
fn test_not_gt() {
    let mut env = Environment::new();
    let result = evaluate("(not (gt 0 1))", &mut env).unwrap();
    assert_eq!(result, Value::Number(Num::from_int(1)));
}

#[test]
fn test_simple_program() {
    let mut env = Environment::new();
    let source = "(let b 10)
                      (let h 14)
                      (/ (* b h) 2)";
    let res = evaluate(source, &mut env).unwrap();
    assert_eq!(res, Value::List(vec![Value::Number(Num::from_int(70))]));
}

#[test]
fn program_test_conditional() {
    let mut env = Environment::new();
    let source = "(let factorial (fn (n) (cond ((lt n 1) 1) (* n (factorial (- n 1))))))(factorial 5)";
    let res = evaluate(source, &mut env).unwrap();
    assert_eq!(res, Value::List(vec![Value::Number(Num::from_int(120))]));
}

#[test]
fn test_bindings_persist_across_calls() {
    let mut env = Environment::new();
    evaluate("(let b 10)", &mut env).unwrap();
    evaluate("(let h 14)", &mut env).unwrap();
    let res = evaluate("(/ (* b h) 2)", &mut env).unwrap();
    assert_eq!(res, Value::Number(Num::from_int(70)));
}

#[test]
fn test_recursive_function_across_calls() {
    let mut env = Environment::new();
    evaluate(
        "(let factorial (fn (n) (cond ((lt n 1) 1) (* n (factorial (- n 1))))))",
        &mut env,
    )
    .unwrap();
    let res = evaluate("(factorial 5)", &mut env).unwrap();
    assert_eq!(res, Value::Number(Num::from_int(120)));
}

#[test]
fn test_let_returns_nil() {
    let mut env = Environment::new();
    let res = evaluate("(let x 5)", &mut env).unwrap();
    assert_eq!(res, Value::Nil);
}

#[test]
fn test_fold_is_left_to_right() {
    let mut env = Environment::new();
    assert_eq!(
        evaluate("(+ 1 2 3)", &mut env).unwrap(),
        Value::Number(Num::from_int(6))
    );
    assert_eq!(
        evaluate("(gt 5 3 1)", &mut env).unwrap(),
        Value::Number(Num::from_int(0))
    );
}

#[test]
fn test_arity_error() {
    let mut env = Environment::new();
    let err = evaluate("(eq 4)", &mut env).unwrap_err();
    assert_eq!(err, EvalError::Arity);
}

#[test]
fn test_close_paren_alone_error() {
    let mut env = Environment::new();
    let err = evaluate(")", &mut env).unwrap_err();
    assert_eq!(err, EvalError::Parse(ParseErrorKind::UnexpectedClose));
}

#[test]
fn test_unbalanced_error() {
    let mut env = Environment::new();
    let err = evaluate("(+ 1", &mut env).unwrap_err();
    assert_eq!(err, EvalError::Parse(ParseErrorKind::Unbalanced));
}

#[test]
fn test_unbound_symbol_error() {
    let mut env = Environment::new();
    let err = evaluate("nothing", &mut env).unwrap_err();
    assert_eq!(err, EvalError::Unbound("nothing".to_string()));
}

#[test]
fn test_not_a_lambda_error() {
    let mut env = Environment::new();
    evaluate("(let x 5)", &mut env).unwrap();
    let err = evaluate("(x 1)", &mut env).unwrap_err();
    assert_eq!(err, EvalError::NotALambda("x".to_string()));
}

#[test]
fn test_not_a_number_error() {
    let mut env = Environment::new();
    evaluate("(let f (fn (a) (a)))", &mut env).unwrap();
    let err = evaluate("(+ 1 f)", &mut env).unwrap_err();
    assert_eq!(err, EvalError::NotANumber);
}

#[test]
fn test_let_name_error() {
    let mut env = Environment::new();
    let err = evaluate("(let 5 5)", &mut env).unwrap_err();
    assert_eq!(err, EvalError::LetName);
}

#[test]
fn test_fn_shape_error() {
    let mut env = Environment::new();
    let err = evaluate("(fn 5 5)", &mut env).unwrap_err();
    assert_eq!(err, EvalError::FnShape);
}

#[test]
fn test_missing_argument_error() {
    let mut env = Environment::new();
    evaluate("(let f (fn (a b) (+ a b)))", &mut env).unwrap();
    let err = evaluate("(f 1)", &mut env).unwrap_err();
    assert_eq!(err, EvalError::MissingArg);
}

#[test]
fn test_extra_arguments_ignored() {
    let mut env = Environment::new();
    evaluate("(let f (fn (a) (+ a 1)))", &mut env).unwrap();
    let res = evaluate("(f 1 2 3)", &mut env).unwrap();
    assert_eq!(res, Value::Number(Num::from_int(2)));
}

#[test]
fn test_cond_clause_error() {
    let mut env = Environment::new();
    let err = evaluate("(cond (1) 5)", &mut env).unwrap_err();
    assert_eq!(err, EvalError::CondClause);
}

#[test]
fn test_divide_by_zero_error() {
    let mut env = Environment::new();
    let err = evaluate("(/ 5 0)", &mut env).unwrap_err();
    assert_eq!(err, EvalError::DivByZero);
}

#[test]
fn test_overflow_error() {
    let mut env = Environment::new();
    let err = evaluate("(* 1000000000000 100000000000000)", &mut env).unwrap_err();
    assert_eq!(err, EvalError::Overflow);
}

#[test]
fn test_depth_error() {
    let mut env = Environment::new();
    evaluate("(let f (fn (a) (f a)))", &mut env).unwrap();
    let err = evaluate("(f 1)", &mut env).unwrap_err();
    assert_eq!(err, EvalError::Depth);
}

#[test]
fn test_bare_list_drops_nils() {
    let mut env = Environment::new();
    let res = evaluate("((let a 1) (+ 1 1))", &mut env).unwrap();
    assert_eq!(res, Value::List(vec![Value::Number(Num::from_int(2))]));
}

#[test]
fn test_exact_division() {
    let mut env = Environment::new();
    let res = evaluate("(+ (/ 1 3) (/ 2 3))", &mut env).unwrap();
    assert_eq!(res, Value::Number(Num::from_int(1)));
}

#[test]
fn test_number_to_text() {
    let mut env = Environment::new();
    let res = evaluate("(/ 5 2)", &mut env).unwrap();
    assert_eq!(res.to_text(), "2.5");
    let res = evaluate("(- 2 7)", &mut env).unwrap();
    assert_eq!(res.to_text(), "-5");
    let res = evaluate("(/ 1 3)", &mut env).unwrap();
    assert_eq!(res.to_text(), "1/3");
    let res = evaluate("(let q 1)", &mut env).unwrap();
    assert_eq!(res.to_text(), "nil");
}

#[test]
fn test_lambda_to_text() {
    let mut env = Environment::new();
    let res = evaluate("(fn (a) (+ a 1))", &mut env).unwrap();
    assert_eq!(res.to_text(), "fn(a ) + a 1");
}

use minilisp::Num;
use minilisp::ParseErrorKind;
use minilisp::Value;
use minilisp::parse;

#[test]
fn parser_test_one_simple_sexpr() {
    let nodes = parse("(print 5)").unwrap();
    assert_eq!(
        nodes,
        Value::List(vec![
            Value::Symbol("print".to_string()),
            Value::Number(Num::from_int(5)),
        ])
    );
}

#[test]
fn parser_test_one_small_program() {
    let program = "(let b 1.0)
                       (let h 14)
                       (print (/ (* b h) 2))";
    let nodes = parse(program).unwrap();
    assert_eq!(
        nodes,
        Value::List(vec![
            Value::List(vec![
                Value::Symbol("let".to_string()),
                Value::Symbol("b".to_string()),
                Value::Number(Num::from_int(1)),
            ]),
            Value::List(vec![
                Value::Symbol("let".to_string()),
                Value::Symbol("h".to_string()),
                Value::Number(Num::from_int(14)),
            ]),
            Value::List(vec![
                Value::Symbol("print".to_string()),
                Value::List(vec![
                    Value::Symbol("/".to_string()),
                    Value::List(vec![
                        Value::Symbol("*".to_string()),
                        Value::Symbol("b".to_string()),
                        Value::Symbol("h".to_string()),
                    ]),
                    Value::Number(Num::from_int(2)),
                ]),
            ]),
        ])
    );
}

#[test]
fn parser_test_conditional() {
    let nodes = parse(
        "(cond
                             ((gt x 0) Positive)
                             ((eq x 0) Zero)
                             ((lt x 0) Negative))",
    )
    .unwrap();
    assert_eq!(
        nodes,
        Value::List(vec![
            Value::Symbol("cond".to_string()),
            Value::List(vec![
                Value::List(vec![
                    Value::Symbol("gt".to_string()),
                    Value::Symbol("x".to_string()),
                    Value::Number(Num::from_int(0))
                ]),
                Value::Symbol("Positive".to_string())
            ]),
            Value::List(vec![
                Value::List(vec![
                    Value::Symbol("eq".to_string()),
                    Value::Symbol("x".to_string()),
                    Value::Number(Num::from_int(0))
                ]),
                Value::Symbol("Zero".to_string())
            ]),
            Value::List(vec![
                Value::List(vec![
                    Value::Symbol("lt".to_string()),
                    Value::Symbol("x".to_string()),
                    Value::Number(Num::from_int(0))
                ]),
                Value::Symbol("Negative".to_string())
            ]),
        ])
    );
}

#[test]
fn test_stray_close_paren() {
    let err = parse(")").unwrap_err();
    assert_eq!(err.kind, ParseErrorKind::UnexpectedClose);
}

#[test]
fn test_unbalanced_open_paren() {
    let err = parse("(+ 1").unwrap_err();
    assert_eq!(err.kind, ParseErrorKind::Unbalanced);
}

#[test]
fn test_huge_literal_parse_error() {
    let err = parse("1234567890123456789").unwrap_err();
    assert_eq!(err.kind, ParseErrorKind::UnexpectedChar('1'));
}

#[test]
fn test_round_trip_simple() {
    let v = parse("(let x -5)").unwrap();
    assert_eq!(v.to_text(), "(let x -5)");
    assert_eq!(parse(&v.to_text()).unwrap(), v);
}

#[test]
fn test_round_trip_normalizes_whitespace() {
    let v = parse("(print   5\n  2.5)").unwrap();
    assert_eq!(v.to_text(), "(print 5 2.5)");
    assert_eq!(parse(&v.to_text()).unwrap(), v);
}

#[test]
fn test_round_trip_multiple_toplevel() {
    let src = "(let b 10)\n(let h 14)";
    let v = parse(src).unwrap();
    assert_eq!(v.to_text(), "((let b 10) (let h 14))");
}

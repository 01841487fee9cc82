use minilisp::Num;
use minilisp::Token;
use minilisp::tokenize;

#[test]
fn lexer_test_one_simple_sexpr() {
    let tokens = tokenize("(let x 5)").unwrap();
    assert_eq!(
        tokens,
        vec![
            Token::LParen,
            Token::Symbol("let".to_string()),
            Token::Symbol("x".to_string()),
            Token::Number(Num::from_int(5)),
            Token::RParen
        ]
    );
}

#[test]
fn test_parse_negative_number() {
    let tokens = tokenize("(let x -5)").unwrap();
    assert_eq!(
        tokens,
        vec![
            Token::LParen,
            Token::Symbol("let".to_string()),
            Token::Symbol("x".to_string()),
            Token::Number(Num::from_int(-5)),
            Token::RParen
        ]
    );
}

#[test]
fn lexer_test_one_small_program() {
    let program = "(let b 1.0)
                       (let h 14)
                       (print (/ (* b h) 2))";
    let tokens = tokenize(program).unwrap();
    assert_eq!(
        tokens,
        vec![
            Token::LParen,
            Token::Symbol("let".to_string()),
            Token::Symbol("b".to_string()),
            Token::Number(Num::from_int(1)),
            Token::RParen,
            Token::LParen,
            Token::Symbol("let".to_string()),
            Token::Symbol("h".to_string()),
            Token::Number(Num::from_int(14)),
            Token::RParen,
            Token::LParen,
            Token::Symbol("print".to_string()),
            Token::LParen,
            Token::Symbol("/".to_string()),
            Token::LParen,
            Token::Symbol("*".to_string()),
            Token::Symbol("b".to_string()),
            Token::Symbol("h".to_string()),
            Token::RParen,
            Token::Number(Num::from_int(2)),
            Token::RParen,
            Token::RParen
        ]
    );
}

#[test]
fn test_fractional_literal_reduced() {
    let tokens = tokenize("2.5").unwrap();
    assert_eq!(tokens, vec![Token::Number(Num::ratio(5, 2).unwrap())]);
}

#[test]
fn test_number_then_symbol() {
    let tokens = tokenize("5x").unwrap();
    assert_eq!(
        tokens,
        vec![
            Token::Number(Num::from_int(5)),
            Token::Symbol("x".to_string())
        ]
    );
}

#[test]
fn test_minus_alone_is_symbol() {
    let tokens = tokenize("- -x").unwrap();
    assert_eq!(
        tokens,
        vec![
            Token::Symbol("-".to_string()),
            Token::Symbol("-x".to_string())
        ]
    );
}

#[test]
fn test_huge_literal_refused() {
    let err = tokenize("1234567890123456789").unwrap_err();
    assert_eq!(err.ch, '1');
}

#[test]
fn test_whitespace_only() {
    let tokens = tokenize("  \n\t  ").unwrap();
    assert!(tokens.is_empty());
}

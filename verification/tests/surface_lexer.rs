use alkoholiq::tokens::{tokenize, Token};

#[test]
fn test_basic() {
    let input = "//Est\nvar = 42";
    let tokens = tokenize(input);
    assert_eq!(
        tokens,
        vec![
            Token::Identifier("var".to_string()),
            Token::Assign,
            Token::Integer(42),
        ]
    );
}

#[test]
fn test_array() {
    let input = "array = [1 2 3]";
    let tokens = tokenize(input);
    assert_eq!(
        tokens,
        vec![
            Token::Identifier("array".to_string()),
            Token::Assign,
            Token::SquareOpen,
            Token::Integer(1),
            Token::Integer(2),
            Token::Integer(3),
            Token::SquareClose,
        ]
    );
}

#[test]
fn test_string() {
    let input = r#"str* = "Hello""#;
    let tokens = tokenize(input);
    assert_eq!(
        tokens,
        vec![
            Token::Identifier("str".to_string()),
            Token::Identifier("*".to_string()),
            Token::Assign,
            Token::StringLit("Hello".to_string()),
        ]
    );
}

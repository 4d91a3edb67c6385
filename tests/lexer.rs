use tinybasic::lexer::{lex, LexerError, Token};

#[test]
fn lex_let_line() {
    let tokens = lex("10 LET A=5\n").unwrap();
    assert_eq!(tokens.len(), 6);
    assert!(matches!(&tokens[0], Token::Number(n) if n == "10"));
    assert!(matches!(tokens[1], Token::Let));
    assert!(matches!(tokens[2], Token::Var('A')));
    assert!(matches!(tokens[3], Token::Equals));
    assert!(matches!(&tokens[4], Token::Number(n) if n == "5"));
    assert!(matches!(tokens[5], Token::CarrigeReturn));
}

#[test]
fn lex_keywords_and_operators() {
    let tokens = lex("PRINT IF THEN GOTO INPUT LET GOSUB RETURN CLEAR LIST RUN END,()+-*/").unwrap();
    assert_eq!(tokens.len(), 19);
    assert!(matches!(tokens[0], Token::Print));
    assert!(matches!(tokens[7], Token::Return));
    assert!(matches!(tokens[11], Token::End));
    assert!(matches!(tokens[12], Token::Comma));
    assert!(matches!(tokens[18], Token::Divide));
}

#[test]
fn lex_relational_operators() {
    let tokens = lex("= <> < <= > >=").unwrap();
    assert_eq!(tokens.len(), 6);
    assert!(matches!(tokens[0], Token::Equals));
    assert!(matches!(tokens[1], Token::NotEquals));
    assert!(matches!(tokens[2], Token::LessThan));
    assert!(matches!(tokens[3], Token::LessThanEquals));
    assert!(matches!(tokens[4], Token::GreaterThan));
    assert!(matches!(tokens[5], Token::GreaterThanEquals));
}

#[test]
fn lex_string_literal() {
    let tokens = lex("PRINT \"HI THERE\" 7").unwrap();
    assert_eq!(tokens.len(), 3);
    assert!(matches!(&tokens[1], Token::String(s) if s == "HI THERE"));
    assert!(matches!(&tokens[2], Token::Number(n) if n == "7"));
}

#[test]
fn lex_unterminated_string() {
    assert_eq!(lex("PRINT \"OOPS").unwrap_err(), LexerError::InvalidString);
}

#[test]
fn lex_unknown_word() {
    assert_eq!(lex("10 FOO").unwrap_err(), LexerError::UnknownToken("FOO".to_string()));
}

#[test]
fn lex_unknown_character() {
    assert_eq!(lex("10 ?").unwrap_err(), LexerError::UnknownToken("?".to_string()));
}

#[test]
fn lex_non_ascii_character() {
    assert_eq!(lex("10 é").unwrap_err(), LexerError::UnknownToken("é".to_string()));
}

#[test]
fn lex_empty_input() {
    assert_eq!(lex("").unwrap().len(), 0);
}

use tinybasic::lexer::{lex, Token};
use tinybasic::parser::{parse, AddSubtract, ExprOrString, Factor, Line, MultiplyDivide, ParserError, Relop, Statement};

fn parse_text(src: &str) -> Result<Vec<Line>, ParserError> {
    parse(lex(src).unwrap())
}

fn number_of(f: &Factor) -> u32 {
    match f {
        Factor::Number(n) => *n,
        _ => panic!("not a number: {:?}", f),
    }
}

#[test]
fn parse_precedence_multiplication_binds_tighter() {
    let lines = parse_text("10 GOTO 2+3*4").unwrap();
    assert_eq!(lines.len(), 1);
    let expr = match &lines[0].1 {
        Statement::Goto(e) => e,
        other => panic!("unexpected {:?}", other),
    };
    assert_eq!(expr.len(), 2);
    assert!(matches!(expr[0].0, AddSubtract::Add));
    assert_eq!(expr[0].1.len(), 1);
    assert_eq!(number_of(&expr[0].1[0].1), 2);
    assert!(matches!(expr[1].0, AddSubtract::Add));
    assert_eq!(expr[1].1.len(), 2);
    assert_eq!(number_of(&expr[1].1[0].1), 3);
    assert!(matches!(expr[1].1[1].0, MultiplyDivide::Multiply));
    assert_eq!(number_of(&expr[1].1[1].1), 4);
}

#[test]
fn parse_precedence_parentheses_group_first() {
    let lines = parse_text("10 GOTO (2+3)*4").unwrap();
    let expr = match &lines[0].1 {
        Statement::Goto(e) => e,
        other => panic!("unexpected {:?}", other),
    };
    assert_eq!(expr.len(), 1);
    assert_eq!(expr[0].1.len(), 2);
    match &expr[0].1[0].1 {
        Factor::Expression(inner) => {
            assert_eq!(inner.len(), 2);
            assert_eq!(number_of(&inner[0].1[0].1), 2);
            assert_eq!(number_of(&inner[1].1[0].1), 3);
        },
        other => panic!("unexpected {:?}", other),
    }
    assert_eq!(number_of(&expr[0].1[1].1), 4);
}

#[test]
fn parse_leading_sign_only_on_first_term() {
    let lines = parse_text("10 LET A=-B+C").unwrap();
    match &lines[0].1 {
        Statement::Let('A', e) => {
            assert_eq!(e.len(), 2);
            assert!(matches!(e[0].0, AddSubtract::Subtract));
            assert!(matches!(e[1].0, AddSubtract::Add));
        },
        other => panic!("unexpected {:?}", other),
    }
    assert_eq!(parse_text("10 LET A=B+-C").unwrap_err(), ParserError::MissingLeftParen);
}

#[test]
fn parse_straight_line_program() {
    let lines = parse_text("10 LET A=5\n20 LET B=A*2+1\n30 PRINT B\n").unwrap();
    assert_eq!(lines.len(), 3);
    assert_eq!(lines[0].0, 10);
    assert_eq!(lines[1].0, 20);
    assert_eq!(lines[2].0, 30);
    assert!(matches!(&lines[2].1, Statement::Print(items) if items.len() == 1));
}

#[test]
fn parse_if_with_nested_goto() {
    let lines = parse_text("20 IF A=1 THEN GOTO 40").unwrap();
    match &lines[0].1 {
        Statement::If(l, Relop::Equals, r, then) => {
            assert_eq!(l.len(), 1);
            assert_eq!(r.len(), 1);
            assert!(matches!(**then, Statement::Goto(_)));
        },
        other => panic!("unexpected {:?}", other),
    }
}

#[test]
fn parse_print_mixed_items() {
    let lines = parse_text("10 PRINT \"A IS \" A \"!\"").unwrap();
    match &lines[0].1 {
        Statement::Print(items) => {
            assert_eq!(items.len(), 3);
            assert!(matches!(&items[0], ExprOrString::String(s) if s == "A IS "));
            assert!(matches!(&items[1], ExprOrString::Expr(_)));
            assert!(matches!(&items[2], ExprOrString::String(s) if s == "!"));
        },
        other => panic!("unexpected {:?}", other),
    }
}

#[test]
fn parse_input_and_housekeeping() {
    let lines = parse_text("10 INPUT A B\n20 CLEAR\n30 LIST\n40 RUN\n50 RETURN\n60 END").unwrap();
    assert_eq!(lines.len(), 6);
    assert!(matches!(&lines[0].1, Statement::Input(vs) if vs == &vec!['A', 'B']));
    assert!(matches!(lines[1].1, Statement::Clear));
    assert!(matches!(lines[2].1, Statement::List));
    assert!(matches!(lines[3].1, Statement::Run));
    assert!(matches!(lines[4].1, Statement::Return));
    assert!(matches!(lines[5].1, Statement::End));
}

#[test]
fn parse_decreasing_line_numbers_fail() {
    assert_eq!(
        parse_text("20 LET A=5\n10 PRINT A\n").unwrap_err(),
        ParserError::LineNumbersNotIncrementing
    );
}

#[test]
fn parse_equal_line_numbers_fail() {
    assert_eq!(parse_text("10 END\n10 END\n").unwrap_err(), ParserError::LineNumbersNotIncrementing);
}

#[test]
fn parse_empty_program() {
    assert_eq!(parse_text("\n\n").unwrap().len(), 0);
}

#[test]
fn parse_largest_line_number() {
    let lines = parse_text("4294967295 END").unwrap();
    assert_eq!(lines[0].0, 4294967295);
    assert_eq!(parse_text("4294967296 END").unwrap_err(), ParserError::InvalidLineNumber);
}

#[test]
fn parse_line_number_with_plus_sign() {
    let tokens = vec![Token::Number("+7".to_string()), Token::End];
    assert_eq!(parse(tokens).unwrap()[0].0, 7);
}

#[test]
fn parse_error_invalid_line() {
    assert_eq!(parse_text("PRINT 1").unwrap_err(), ParserError::InvalidLine);
}

#[test]
fn parse_error_empty_statement() {
    assert_eq!(parse_text("10").unwrap_err(), ParserError::EmptyStatement);
}

#[test]
fn parse_error_invalid_statement() {
    assert_eq!(parse_text("10 THEN").unwrap_err(), ParserError::InvalidStatement);
}

#[test]
fn parse_error_empty_expr() {
    assert_eq!(parse_text("10 GOTO\n").unwrap_err(), ParserError::EmptyExpr);
}

#[test]
fn parse_error_empty_term() {
    assert_eq!(parse_text("10 GOTO 1+\n").unwrap_err(), ParserError::EmptyTerm);
}

#[test]
fn parse_error_invalid_factor_number() {
    let tokens = vec![Token::Number("10".to_string()), Token::Goto, Token::Number("99999999999".to_string())];
    assert_eq!(parse(tokens).unwrap_err(), ParserError::InvalidFactorNumber);
}

#[test]
fn parse_error_missing_right_paren() {
    assert_eq!(parse_text("10 GOTO (1+2").unwrap_err(), ParserError::MissingRightParen);
}

#[test]
fn parse_error_missing_left_paren() {
    assert_eq!(parse_text("10 GOTO )").unwrap_err(), ParserError::MissingLeftParen);
}

#[test]
fn parse_error_invalid_if() {
    assert_eq!(parse_text("10 IF A=1 GOTO 20").unwrap_err(), ParserError::InvalidIf);
}

#[test]
fn parse_error_invalid_relop() {
    assert_eq!(parse_text("10 IF A THEN END").unwrap_err(), ParserError::InvalidRelop);
}

#[test]
fn parse_error_invalid_input() {
    assert_eq!(parse_text("10 INPUT 5").unwrap_err(), ParserError::InvalidInput);
}

#[test]
fn parse_error_invalid_let() {
    assert_eq!(parse_text("10 LET 5=1").unwrap_err(), ParserError::InvalidLet);
}

#[test]
fn parse_error_trailing_tokens() {
    assert_eq!(parse_text("10 GOTO 5 )").unwrap_err(), ParserError::MissingLeftParen);
    assert_eq!(parse_text("10 GOTO 1)").unwrap_err(), ParserError::MissingLeftParen);
    assert_eq!(parse_text("10 LET A=(1+2))").unwrap_err(), ParserError::MissingLeftParen);
    assert_eq!(parse_text("10 GOTO 5 20 END").unwrap().len(), 2);
}

#[test]
fn parse_error_line_break_after_line_number() {
    assert_eq!(parse_text("10\n20 END").unwrap_err(), ParserError::EmptyStatement);
    assert_eq!(parse_text("10 IF A=1 THEN\n").unwrap_err(), ParserError::EmptyStatement);
}

#[test]
fn parse_round_trip_of_written_back_expression() {
    let first = parse_text("10 LET A=-B+(2*C)/4-007").unwrap();
    let again = parse_text("10 LET A=-B+(2*C)/4-7").unwrap();
    assert_eq!(format!("{:?}", first), format!("{:?}", again));
    let nested = parse_text("10 GOTO ((1+2)*(3-A))/B").unwrap();
    let nested_again = parse_text("10 GOTO ((1+2)*(3-A))/B\n").unwrap();
    assert_eq!(format!("{:?}", nested), format!("{:?}", nested_again));
}

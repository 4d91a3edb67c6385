use tinybasic::lexer::lex;
use tinybasic::parser::parse;
use tinybasic::parser::{Line, Statement};
use tinybasic::transpiler::{transpile, TranspileError};

const PROLOGUE: &str = "#include <stdio.h>\n\nint main() {\nunsigned int A = 0u, B = 0u, C = 0u, D = 0u, E = 0u, F = 0u, G = 0u, H = 0u, I = 0u, J = 0u, K = 0u, L = 0u, M = 0u, N = 0u, O = 0u, P = 0u, Q = 0u, R = 0u, S = 0u, T = 0u, U = 0u, V = 0u, W = 0u, X = 0u, Y = 0u, Z = 0u;\nunsigned long long stack[256];\nunsigned int sp = 0u;\nunsigned long long pc = ";

const EPILOGUE: &str = "default:\nreturn 1;\n}\n}\nreturn 0;\n}\n";

fn generate(src: &str) -> String {
    transpile(parse(lex(src).unwrap()).unwrap()).unwrap()
}

#[test]
fn transpile_empty_program() {
    let expected = format!("{}4294967296ull;\nwhile (pc != 4294967296ull) {{\nswitch (pc) {{\n{}", PROLOGUE, EPILOGUE);
    assert_eq!(generate(""), expected);
}

#[test]
fn transpile_straight_line_program() {
    let expected = format!(
        "{}10u;\nwhile (pc != 4294967296ull) {{\nswitch (pc) {{\n\
case 10u:\nA = (0u+(1u*5u));\npc = 20u;\ncontinue;\n\
case 20u:\nB = (0u+(1u*A*2u)+(1u*1u));\npc = 30u;\ncontinue;\n\
case 30u:\nprintf(\"%u\", (0u+(1u*B))); \npc = 4294967296ull;\ncontinue;\n{}",
        PROLOGUE, EPILOGUE
    );
    assert_eq!(generate("10 LET A=5\n20 LET B=A*2+1\n30 PRINT B\n"), expected);
}

#[test]
fn transpile_conditional_jump() {
    let out = generate("10 LET A=1\n20 IF A=1 THEN GOTO 40\n30 PRINT 0\n40 PRINT 1\n");
    assert!(out.contains(
        "case 20u:\nif ((0u+(1u*A)) == (0u+(1u*1u))) { pc = (0u+(1u*40u)); continue; }\npc = 30u;\ncontinue;\n"
    ));
    assert!(out.contains("case 30u:\nprintf(\"%u\", (0u+(1u*0u))); \npc = 40u;\ncontinue;\n"));
    assert!(out.contains("case 40u:\nprintf(\"%u\", (0u+(1u*1u))); \npc = 4294967296ull;\ncontinue;\n"));
}

#[test]
fn transpile_gosub_pushes_following_line() {
    let out = generate("10 GOSUB 30\n20 END\n30 PRINT 1\n40 RETURN\n");
    assert!(out.contains(
        "case 10u:\nif (sp == 256u) { return 1; } stack[sp] = 20u; sp = sp + 1u; pc = (0u+(1u*30u)); continue;\npc = 20u;\ncontinue;\n"
    ));
    assert!(out.contains("case 20u:\nreturn 0;\npc = 30u;\ncontinue;\n"));
    assert!(out.contains(
        "case 40u:\nif (sp == 0u) { return 1; } sp = sp - 1u; pc = stack[sp]; continue;\npc = 4294967296ull;\ncontinue;\n"
    ));
}

#[test]
fn transpile_gosub_on_last_line_returns_to_halt() {
    let out = generate("10 GOSUB 10");
    assert!(out.contains("stack[sp] = 4294967296ull;"));
}

#[test]
fn transpile_precedence_text() {
    let out = generate("10 LET A=2+3*4\n20 LET B=(2+3)*4\n");
    assert!(out.contains("A = (0u+(1u*2u)+(1u*3u*4u));"));
    assert!(out.contains("B = (0u+(1u*(0u+(1u*2u)+(1u*3u))*4u));"));
}

#[test]
fn transpile_signs_and_division() {
    let out = generate("10 LET C=-A-B/2");
    assert!(out.contains("C = (0u-(1u*A)-(1u*B/2u));"));
}

#[test]
fn transpile_print_mixed_items() {
    let out = generate("10 PRINT \"A IS \" A");
    assert!(out.contains(
        "fwrite(\"A IS \", 1, sizeof(\"A IS \") - 1, stdout); printf(\"%u\", (0u+(1u*A))); "
    ));
}

#[test]
fn transpile_input_relops_and_housekeeping() {
    let out = generate("10 INPUT A B\n20 IF A<>B THEN END\n30 IF A>=B THEN CLEAR\n40 LIST\n50 RUN\n");
    assert!(out.contains("case 10u:\nscanf(\"%u\", &A); scanf(\"%u\", &B); \npc = 20u;"));
    assert!(out.contains("if ((0u+(1u*A)) != (0u+(1u*B))) { return 0; }"));
    assert!(out.contains("if ((0u+(1u*A)) >= (0u+(1u*B))) { ; }"));
    assert!(out.contains("case 40u:\n;\npc = 50u;"));
    assert!(out.contains("case 50u:\n;\npc = 4294967296ull;"));
}

#[test]
fn transpile_large_numbers_in_decimal() {
    let out = generate("4294967295 LET Z=1234567890");
    assert!(out.contains("case 4294967295u:\nZ = (0u+(1u*1234567890u));"));
    assert!(out.contains("unsigned long long pc = 4294967295u;"));
}

#[test]
fn transpile_dispatch_keys_one_case_per_line() {
    let out = generate("5 END\n7 END\n1000 END\n");
    assert_eq!(out.matches("case ").count(), 3);
    assert!(out.contains("case 5u:"));
    assert!(out.contains("case 7u:"));
    assert!(out.contains("case 1000u:"));
}

#[test]
fn transpile_print_escapes_string_literal() {
    let out = generate("10 PRINT \"A\\B\" \"X\nY\"");
    assert!(out.contains("fwrite(\"A\\\\B\", 1, sizeof(\"A\\\\B\") - 1, stdout); "));
    assert!(out.contains("fwrite(\"X\\nY\", 1, sizeof(\"X\\nY\") - 1, stdout); "));
}

#[test]
fn transpile_print_keeps_nul_character() {
    let lines = parse(vec![
        tinybasic::lexer::Token::Number("10".to_string()),
        tinybasic::lexer::Token::Print,
        tinybasic::lexer::Token::String("A\0B".to_string()),
    ])
    .unwrap();
    let out = transpile(lines).unwrap();
    assert!(out.contains("fwrite(\"A\\000B\", 1, sizeof(\"A\\000B\") - 1, stdout); "));
}

#[test]
fn transpile_print_has_no_added_newline() {
    let out = generate("10 PRINT \"HI\"");
    assert!(out.contains("case 10u:\nfwrite(\"HI\", 1, sizeof(\"HI\") - 1, stdout); \npc = 4294967296ull;"));
}

#[test]
fn transpile_rejects_empty_expression() {
    let lines = vec![Line(10, Statement::Goto(vec![]))];
    assert_eq!(transpile(lines).unwrap_err(), TranspileError::InvalidStatement);
    let lines = vec![Line(10, Statement::Let('A', vec![(tinybasic::parser::AddSubtract::Add, vec![])]))];
    assert_eq!(transpile(lines).unwrap_err(), TranspileError::InvalidStatement);
}

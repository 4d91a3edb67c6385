//! Code generation from parsed lines to C.
//!
//! A program becomes one `main` with the 26 variables `A` to `Z` (all zero), a
//! program counter `pc` holding the dispatch key of the line to run, a stack
//! of return keys for `GOSUB`, and a loop that switches on `pc`. The dispatch
//! key of a line is its line number; the key `halt_key()`, which no line number
//! reaches, ends the loop. Each line is one `case` that runs its statement and
//! then moves `pc` to the key of the next line; a jump sets `pc` and restarts
//! the loop. Expressions are written fully parenthesised and unsigned, and
//! each `PRINT` item is one output call: `printf` for a number, `fwrite` with
//! the full length for a string. A letter names the cell of its upper-case
//! form, so `a` and `A` are one variable.
use vstd::prelude::*;
use crate::parser::{
    AddSubtract, Expr, ExprOrString, Factor, Line, MultiplyDivide, Relop, SExpr, SFactor, SItem,
    SLine, STerm, SStatement, Statement, Term, expr_model, expr_model_seq, factor_model,
    item_model, lines_model, statement_model, term_model_seq,
};
use crate::text::{cell_char, cell_name, decimal, is_digit, is_letter, push_char, push_decimal};
use crate::lexer::{
    LexFailure, Token, TokenModel, digits_len, keyword, letters_len, lemma_runs_in_bounds, lex_spec,
    single_token, tokens_model, unquoted_len,
};
use crate::parser::{
    expr_spec, expr_tail_spec, factor_spec, if_spec, input_spec, item_spec, lemma_parse_gives_lines_read,
    line_spec, parse_spec, print_spec, program_spec, relop_spec, statement_spec, term_spec,
    term_tail_spec,
};

verus! {

broadcast use vstd::std_specs::vec::group_vec_axioms, vstd::seq::group_seq_axioms;

#[derive(Debug, Clone, Copy, PartialEq, Eq, Structural)]
pub enum TranspileError {
    InvalidStatement,
}

/// The dispatch key that ends the generated program: one past every `u32`.
pub open spec fn halt_key() -> int {
    0x1_0000_0000
}

/// The dispatch key of a line.
pub open spec fn dispatch_key(l: SLine) -> int {
    l.number as int
}

/// The dispatch keys of a program, line by line.
pub open spec fn dispatch_keys(lines: Seq<SLine>) -> Seq<int> {
    lines.map_values(|l: SLine| dispatch_key(l))
}

/// The key of the line after line `k`, or the halting key after the last.
pub open spec fn next_key(lines: Seq<SLine>, k: int) -> int {
    if k + 1 < lines.len() {
        dispatch_key(lines[k + 1])
    } else {
        halt_key()
    }
}

// ---------------------------------------------------------------------------
// The text of each construct

pub open spec fn key_text(k: int) -> Seq<char> {
    if k == halt_key() {
        "4294967296ull"@
    } else {
        decimal(k as nat) + "u"@
    }
}

pub open spec fn add_sub_text(op: AddSubtract) -> Seq<char> {
    match op {
        AddSubtract::Add => seq!['+'],
        AddSubtract::Subtract => seq!['-'],
    }
}

pub open spec fn mul_div_text(op: MultiplyDivide) -> Seq<char> {
    match op {
        MultiplyDivide::Multiply => seq!['*'],
        MultiplyDivide::Divide => seq!['/'],
    }
}

pub open spec fn relop_text(op: Relop) -> Seq<char> {
    match op {
        Relop::Equals => "=="@,
        Relop::NotEquals => "!="@,
        Relop::GreaterThan => ">"@,
        Relop::GreaterThanEquals => ">="@,
        Relop::LessThan => "<"@,
        Relop::LessThanEquals => "<="@,
    }
}

/// A variable, a literal with the unsigned suffix, or a parenthesised sum.
pub open spec fn factor_text(f: SFactor) -> Seq<char>
    decreases f,
{
    match f {
        SFactor::Var(v) => seq![cell_name(v)],
        SFactor::Number(n) => decimal(n as nat) + "u"@,
        SFactor::Expression(e) => "(0u"@ + expr_body(e) + ")"@,
    }
}

/// The factors of a product, each after its operator.
pub open spec fn term_body(t: STerm) -> Seq<char>
    decreases t,
{
    if t.len() == 0 {
        seq![]
    } else {
        term_body(t.drop_last()) + mul_div_text(t.last().0) + factor_text(t.last().1)
    }
}

/// The terms of a sum, each after its sign, each parenthesised as a product.
pub open spec fn expr_body(e: SExpr) -> Seq<char>
    decreases e,
{
    if e.len() == 0 {
        seq![]
    } else {
        expr_body(e.drop_last()) + add_sub_text(e.last().0) + "(1u"@ + term_body(e.last().1) + ")"@
    }
}

/// A product starts from `1u` and a sum from `0u`, so that every operator of
/// the source has a left operand and the whole computes in unsigned integers.
pub open spec fn term_text(t: STerm) -> Seq<char> {
    "(1u"@ + term_body(t) + ")"@
}

pub open spec fn expr_text(e: SExpr) -> Seq<char> {
    "(0u"@ + expr_body(e) + ")"@
}

/// A character as it stands inside a C string literal: a backslash, a double
/// quote, a line break, a carriage return and NUL are escaped.
pub open spec fn c_escape_char(c: char) -> Seq<char> {
    if c == '\\' {
        seq!['\\', '\\']
    } else if c == '"' {
        seq!['\\', '"']
    } else if c == '\n' {
        seq!['\\', 'n']
    } else if c == '\r' {
        seq!['\\', 'r']
    } else if c == '\0' {
        seq!['\\', '0', '0', '0']
    } else {
        seq![c]
    }
}

/// The body of a C string literal that denotes exactly `s`.
pub open spec fn c_escape(s: Seq<char>) -> Seq<char>
    decreases s.len(),
{
    if s.len() == 0 {
        seq![]
    } else {
        c_escape(s.drop_last()) + c_escape_char(s.last())
    }
}

/// One output call per `PRINT` item: a number in decimal, or a string written
/// with its full length, so that every character of it is written.
pub open spec fn item_text(x: SItem) -> Seq<char> {
    match x {
        SItem::Expr(e) => "printf(\"%u\", "@ + expr_text(e) + "); "@,
        SItem::Str(s) => "fwrite(\""@ + c_escape(s) + "\", 1, sizeof(\""@ + c_escape(s)
            + "\") - 1, stdout); "@,
    }
}

/// The output calls of a `PRINT`, one per item, in order.
pub open spec fn print_text(items: Seq<SItem>) -> Seq<char>
    decreases items.len(),
{
    if items.len() == 0 {
        seq![]
    } else {
        print_text(items.drop_last()) + item_text(items.last())
    }
}

pub open spec fn input_text(vars: Seq<char>) -> Seq<char>
    decreases vars.len(),
{
    if vars.len() == 0 {
        seq![]
    } else {
        input_text(vars.drop_last()) + "scanf(\"%u\", &"@ + seq![cell_name(vars.last())] + "); "@
    }
}

/// The C statements for one statement of the dialect, where `next` is the key
/// of the line that follows it.
pub open spec fn statement_text(s: SStatement, next: int) -> Seq<char>
    decreases s,
{
    match s {
        SStatement::Print(items) => print_text(items),
        SStatement::If(l, r, rr, then) => "if ("@ + expr_text(l) + " "@ + relop_text(r) + " "@
            + expr_text(rr) + ") { "@ + statement_text(*then, next) + " }"@,
        SStatement::Goto(e) => "pc = "@ + expr_text(e) + "; continue;"@,
        SStatement::Input(vars) => input_text(vars),
        SStatement::Let(v, e) => seq![cell_name(v)] + " = "@ + expr_text(e) + ";"@,
        SStatement::Gosub(e) => "if (sp == 256u) { return 1; } stack[sp] = "@ + key_text(next)
            + "; sp = sp + 1u; pc = "@ + expr_text(e) + "; continue;"@,
        SStatement::Return => "if (sp == 0u) { return 1; } sp = sp - 1u; pc = stack[sp]; continue;"@,
        SStatement::Clear => ";"@,
        SStatement::List => ";"@,
        SStatement::Run => ";"@,
        SStatement::End => "return 0;"@,
    }
}

/// The `case` of line `k`: its statement, then on to the next line.
pub open spec fn line_text(lines: Seq<SLine>, k: int) -> Seq<char> {
    "case "@ + key_text(dispatch_key(lines[k])) + ":\n"@ + statement_text(
        lines[k].statement,
        next_key(lines, k),
    ) + "\npc = "@ + key_text(next_key(lines, k)) + ";\ncontinue;\n"@
}

/// The cases of the first `n` lines.
pub open spec fn cases_text(lines: Seq<SLine>, n: int) -> Seq<char>
    decreases n,
{
    if n <= 0 {
        seq![]
    } else {
        cases_text(lines, n - 1) + line_text(lines, n - 1)
    }
}

pub open spec fn first_key(lines: Seq<SLine>) -> int {
    if lines.len() > 0 {
        dispatch_key(lines[0])
    } else {
        halt_key()
    }
}

pub open spec fn prologue_text() -> Seq<char> {
    "#include <stdio.h>\n\nint main() {\nunsigned int A = 0u, B = 0u, C = 0u, D = 0u, E = 0u, F = 0u, G = 0u, H = 0u, I = 0u, J = 0u, K = 0u, L = 0u, M = 0u, N = 0u, O = 0u, P = 0u, Q = 0u, R = 0u, S = 0u, T = 0u, U = 0u, V = 0u, W = 0u, X = 0u, Y = 0u, Z = 0u;\nunsigned long long stack[256];\nunsigned int sp = 0u;\nunsigned long long pc = "@
}

pub open spec fn loop_head_text() -> Seq<char> {
    ";\nwhile (pc != 4294967296ull) {\nswitch (pc) {\n"@
}

pub open spec fn epilogue_text() -> Seq<char> {
    "default:\nreturn 1;\n}\n}\nreturn 0;\n}\n"@
}

/// The whole generated program.
pub open spec fn program_text(lines: Seq<SLine>) -> Seq<char> {
    prologue_text() + key_text(first_key(lines)) + loop_head_text() + cases_text(lines, lines.len() as int)
        + epilogue_text()
}

// ---------------------------------------------------------------------------
// Generation

/// Appends a literal piece of text.
fn emit(out: &mut String, piece: &str)
    ensures
        final(out)@ == old(out)@ + piece@,
{
    out.append(piece);
}

fn transpile_key(out: &mut String, n: u32)
    ensures
        final(out)@ == old(out)@ + key_text(n as int),
{
    push_decimal(out, n);
    emit(out, "u");
}

fn transpile_halt_key(out: &mut String)
    ensures
        final(out)@ == old(out)@ + key_text(halt_key()),
{
    emit(out, "4294967296ull");
}

fn transpile_factor(input: &Factor, out: &mut String)
    ensures
        final(out)@ == old(out)@ + factor_text(factor_model(*input)),
    decreases input,
{
    match input {
        Factor::Var(v) => push_char(out, cell_char(*v)),
        Factor::Number(n) => {
            push_decimal(out, *n);
            emit(out, "u");
        },
        Factor::Expression(e) => {
            proof {
                assert(expr_text(expr_model_seq(e@)) == "(0u"@ + expr_body(expr_model_seq(e@)) + ")"@);
            }
            transpile_expr(e, out);
        },
    }
    assert(final(out)@ =~= old(out)@ + factor_text(factor_model(*input)));
}

fn transpile_term(input: &Term, out: &mut String)
    ensures
        final(out)@ == old(out)@ + term_text(term_model_seq(input@)),
    decreases input,
{
    let ghost start = out@;
    emit(out, "(1u");
    let mut k: usize = 0;
    proof {
        assert(input@.subrange(0, 0) =~= Seq::<(MultiplyDivide, Factor)>::empty());
        assert(term_body(term_model_seq(input@.subrange(0, 0))) =~= seq![]);
        assert(out@ =~= start + "(1u"@ + term_body(term_model_seq(input@.subrange(0, 0))));
    }
    while k < input.len()
        invariant
            k <= input@.len(),
            out@ == start + "(1u"@ + term_body(term_model_seq(input@.subrange(0, k as int))),
        decreases input@.len() - k,
    {
        let (op, f) = &input[k];
        let ghost before = out@;
        match op {
            MultiplyDivide::Multiply => push_char(out, '*'),
            MultiplyDivide::Divide => push_char(out, '/'),
        }
        transpile_factor(f, out);
        proof {
            let p = input@.subrange(0, k as int + 1);
            assert(p.drop_last() =~= input@.subrange(0, k as int));
            let m = term_model_seq(p);
            assert(m.drop_last() =~= term_model_seq(input@.subrange(0, k as int)));
            assert(out@ =~= start + "(1u"@ + term_body(m));
        }
        k = k + 1;
    }
    emit(out, ")");
    assert(input@.subrange(0, input@.len() as int) =~= input@);
    assert(final(out)@ =~= old(out)@ + term_text(term_model_seq(input@)));
}

fn transpile_expr(input: &Expr, out: &mut String)
    ensures
        final(out)@ == old(out)@ + expr_text(expr_model(*input)),
    decreases input,
{
    let ghost start = out@;
    emit(out, "(0u");
    let mut k: usize = 0;
    proof {
        assert(input@.subrange(0, 0) =~= Seq::<(AddSubtract, Term)>::empty());
        assert(expr_body(expr_model_seq(input@.subrange(0, 0))) =~= seq![]);
        assert(out@ =~= start + "(0u"@ + expr_body(expr_model_seq(input@.subrange(0, 0))));
    }
    while k < input.len()
        invariant
            k <= input@.len(),
            out@ == start + "(0u"@ + expr_body(expr_model_seq(input@.subrange(0, k as int))),
        decreases input@.len() - k,
    {
        let (op, t) = &input[k];
        match op {
            AddSubtract::Add => push_char(out, '+'),
            AddSubtract::Subtract => push_char(out, '-'),
        }
        transpile_term(t, out);
        proof {
            let p = input@.subrange(0, k as int + 1);
            assert(p.drop_last() =~= input@.subrange(0, k as int));
            let m = expr_model_seq(p);
            assert(m.drop_last() =~= expr_model_seq(input@.subrange(0, k as int)));
            assert(out@ =~= start + "(0u"@ + expr_body(m));
        }
        k = k + 1;
    }
    emit(out, ")");
    assert(input@.subrange(0, input@.len() as int) =~= input@);
    assert(final(out)@ =~= old(out)@ + expr_text(expr_model(*input)));
}

fn transpile_relop(input: &Relop, out: &mut String)
    ensures
        final(out)@ == old(out)@ + relop_text(*input),
{
    match input {
        Relop::Equals => emit(out, "=="),
        Relop::NotEquals => emit(out, "!="),
        Relop::GreaterThan => emit(out, ">"),
        Relop::GreaterThanEquals => emit(out, ">="),
        Relop::LessThan => emit(out, "<"),
        Relop::LessThanEquals => emit(out, "<="),
    }
}

/// Appends the characters of `s`, escaped for a C string literal.
fn transpile_string(s: &str, out: &mut String)
    ensures
        final(out)@ == old(out)@ + c_escape(s@),
{
    let ghost start = out@;
    let n = s.unicode_len();
    let mut k: usize = 0;
    proof {
        assert(s@.subrange(0, 0) =~= Seq::<char>::empty());
        assert(out@ =~= start + c_escape(s@.subrange(0, 0)));
    }
    while k < n
        invariant
            k <= n,
            n == s@.len(),
            out@ == start + c_escape(s@.subrange(0, k as int)),
        decreases n - k,
    {
        let c = s.get_char(k);
        if c == '\\' {
            push_char(out, '\\');
            push_char(out, '\\');
        } else if c == '"' {
            push_char(out, '\\');
            push_char(out, '"');
        } else if c == '\n' {
            push_char(out, '\\');
            push_char(out, 'n');
        } else if c == '\r' {
            push_char(out, '\\');
            push_char(out, 'r');
        } else if c == '\0' {
            push_char(out, '\\');
            push_char(out, '0');
            push_char(out, '0');
            push_char(out, '0');
        } else {
            push_char(out, c);
        }
        proof {
            let p = s@.subrange(0, k as int + 1);
            assert(p.drop_last() =~= s@.subrange(0, k as int));
            assert(out@ =~= start + c_escape(p));
        }
        k = k + 1;
    }
    assert(s@.subrange(0, n as int) =~= s@);
}

fn transpile_expr_or_string(input: &ExprOrString, out: &mut String)
    ensures
        final(out)@ == old(out)@ + item_text(item_model(*input)),
{
    match input {
        ExprOrString::Expr(e) => {
            emit(out, "printf(\"%u\", ");
            transpile_expr(e, out);
            emit(out, "); ");
        },
        ExprOrString::String(s) => {
            emit(out, "fwrite(\"");
            transpile_string(s.as_str(), out);
            emit(out, "\", 1, sizeof(\"");
            transpile_string(s.as_str(), out);
            emit(out, "\") - 1, stdout); ");
        },
    }
    assert(final(out)@ =~= old(out)@ + item_text(item_model(*input)));
}

fn transpile_print(items: &Vec<ExprOrString>, out: &mut String)
    ensures
        final(out)@ == old(out)@ + print_text(items@.map_values(|x: ExprOrString| item_model(x))),
{
    let ghost model = items@.map_values(|x: ExprOrString| item_model(x));
    let ghost start = out@;
    let mut k: usize = 0;
    proof {
        assert(model.subrange(0, 0) =~= Seq::<SItem>::empty());
        assert(out@ =~= start + print_text(model.subrange(0, 0)));
    }
    while k < items.len()
        invariant
            k <= items@.len(),
            model == items@.map_values(|x: ExprOrString| item_model(x)),
            out@ == start + print_text(model.subrange(0, k as int)),
        decreases items@.len() - k,
    {
        transpile_expr_or_string(&items[k], out);
        proof {
            let p = model.subrange(0, k as int + 1);
            assert(p.drop_last() =~= model.subrange(0, k as int));
            assert(out@ =~= start + print_text(p));
        }
        k = k + 1;
    }
    assert(model.subrange(0, model.len() as int) =~= model);
}

fn transpile_input(vars: &Vec<char>, out: &mut String)
    ensures
        final(out)@ == old(out)@ + input_text(vars@),
{
    let ghost start = out@;
    let mut k: usize = 0;
    proof {
        assert(vars@.subrange(0, 0) =~= Seq::<char>::empty());
        assert(out@ =~= start + input_text(vars@.subrange(0, 0)));
    }
    while k < vars.len()
        invariant
            k <= vars@.len(),
            out@ == start + input_text(vars@.subrange(0, k as int)),
        decreases vars@.len() - k,
    {
        emit(out, "scanf(\"%u\", &");
        push_char(out, cell_char(vars[k]));
        emit(out, "); ");
        proof {
            let p = vars@.subrange(0, k as int + 1);
            assert(p.drop_last() =~= vars@.subrange(0, k as int));
            assert(out@ =~= start + input_text(p));
        }
        k = k + 1;
    }
    assert(vars@.subrange(0, vars@.len() as int) =~= vars@);
}

/// Appends the key `next`, a line number or (for `None`) the halting key.
fn transpile_next_key(next: Option<u32>, out: &mut String)
    ensures
        final(out)@ == old(out)@ + key_text(next_key_of(next)),
{
    match next {
        Some(n) => transpile_key(out, n),
        None => transpile_halt_key(out),
    }
}

pub open spec fn next_key_of(next: Option<u32>) -> int {
    match next {
        Some(n) => n as int,
        None => halt_key(),
    }
}

fn transpile_if(left: &Expr, relop: &Relop, right: &Expr, then: &Statement, next: Option<u32>, out: &mut String)
    ensures
        final(out)@ == old(out)@ + statement_text(
            SStatement::If(expr_model(*left), *relop, expr_model(*right), Box::new(statement_model(*then))),
            next_key_of(next),
        ),
    decreases then, 2int,
{
    emit(out, "if (");
    transpile_expr(left, out);
    emit(out, " ");
    transpile_relop(relop, out);
    emit(out, " ");
    transpile_expr(right, out);
    emit(out, ") { ");
    transpile_statement(then, next, out);
    emit(out, " }");
    assert(final(out)@ =~= old(out)@ + statement_text(
        SStatement::If(expr_model(*left), *relop, expr_model(*right), Box::new(statement_model(*then))),
        next_key_of(next),
    ));
}

fn transpile_goto(target: &Expr, out: &mut String)
    ensures
        final(out)@ == old(out)@ + statement_text(SStatement::Goto(expr_model(*target)), 0),
{
    emit(out, "pc = ");
    transpile_expr(target, out);
    emit(out, "; continue;");
    assert(final(out)@ =~= old(out)@ + statement_text(SStatement::Goto(expr_model(*target)), 0));
}

fn transpile_let(var: char, value: &Expr, out: &mut String)
    ensures
        final(out)@ == old(out)@ + statement_text(SStatement::Let(var, expr_model(*value)), 0),
{
    push_char(out, cell_char(var));
    emit(out, " = ");
    transpile_expr(value, out);
    emit(out, ";");
    assert(final(out)@ =~= old(out)@ + statement_text(SStatement::Let(var, expr_model(*value)), 0));
}

fn transpile_gosub(target: &Expr, next: Option<u32>, out: &mut String)
    ensures
        final(out)@ == old(out)@ + statement_text(SStatement::Gosub(expr_model(*target)), next_key_of(next)),
{
    emit(out, "if (sp == 256u) { return 1; } stack[sp] = ");
    transpile_next_key(next, out);
    emit(out, "; sp = sp + 1u; pc = ");
    transpile_expr(target, out);
    emit(out, "; continue;");
    assert(final(out)@ =~= old(out)@ + statement_text(
        SStatement::Gosub(expr_model(*target)),
        next_key_of(next),
    ));
}

fn transpile_return(out: &mut String)
    ensures
        final(out)@ == old(out)@ + statement_text(SStatement::Return, 0),
{
    emit(out, "if (sp == 0u) { return 1; } sp = sp - 1u; pc = stack[sp]; continue;");
}

/// `CLEAR` has no effect on the run of the program.
fn transpile_clear(out: &mut String)
    ensures
        final(out)@ == old(out)@ + statement_text(SStatement::Clear, 0),
{
    emit(out, ";");
}

/// `LIST` has no effect on the run of the program.
fn transpile_list(out: &mut String)
    ensures
        final(out)@ == old(out)@ + statement_text(SStatement::List, 0),
{
    emit(out, ";");
}

/// `RUN` has no effect on the run of the program.
fn transpile_run(out: &mut String)
    ensures
        final(out)@ == old(out)@ + statement_text(SStatement::Run, 0),
{
    emit(out, ";");
}

fn transpile_end(out: &mut String)
    ensures
        final(out)@ == old(out)@ + statement_text(SStatement::End, 0),
{
    emit(out, "return 0;");
}

fn transpile_statement(input: &Statement, next: Option<u32>, out: &mut String)
    ensures
        final(out)@ == old(out)@ + statement_text(statement_model(*input), next_key_of(next)),
    decreases input, 1int,
{
    match input {
        Statement::Print(items) => transpile_print(items, out),
        Statement::If(left, relop, right, then) => transpile_if(left, relop, right, then, next, out),
        Statement::Goto(target) => transpile_goto(target, out),
        Statement::Input(vars) => transpile_input(vars, out),
        Statement::Let(var, value) => transpile_let(*var, value, out),
        Statement::Gosub(target) => transpile_gosub(target, next, out),
        Statement::Return => transpile_return(out),
        Statement::Clear => transpile_clear(out),
        Statement::List => transpile_list(out),
        Statement::Run => transpile_run(out),
        Statement::End => transpile_end(out),
    }
}

fn transpile_line(input: &Line, next: Option<u32>, out: &mut String)
    ensures
        final(out)@ == old(out)@ + "case "@ + key_text(input.0 as int) + ":\n"@ + statement_text(
            statement_model(input.1),
            next_key_of(next),
        ) + "\npc = "@ + key_text(next_key_of(next)) + ";\ncontinue;\n"@,
{
    emit(out, "case ");
    transpile_key(out, input.0);
    emit(out, ":\n");
    transpile_statement(&input.1, next, out);
    emit(out, "\npc = ");
    transpile_next_key(next, out);
    emit(out, ";\ncontinue;\n");
    assert(final(out)@ =~= old(out)@ + "case "@ + key_text(input.0 as int) + ":\n"@ + statement_text(
        statement_model(input.1),
        next_key_of(next),
    ) + "\npc = "@ + key_text(next_key_of(next)) + ";\ncontinue;\n"@);
}

// ---------------------------------------------------------------------------
// Shapes that have a translation

/// A variable is an ASCII letter; its cell is one of `A` to `Z`.
pub open spec fn is_c_var(c: char) -> bool {
    is_letter(c)
}

pub open spec fn factor_ok(f: SFactor) -> bool
    decreases f,
{
    match f {
        SFactor::Var(v) => is_c_var(v),
        SFactor::Number(_) => true,
        SFactor::Expression(e) => e.len() > 0 && terms_ok(e),
    }
}

/// Every variable in the factors of the product is a letter.
pub open spec fn factors_ok(t: STerm) -> bool
    decreases t,
{
    t.len() == 0 || (factors_ok(t.drop_last()) && factor_ok(t.last().1))
}

/// Every term of the sum is a non-empty product whose variables are letters.
pub open spec fn terms_ok(e: SExpr) -> bool
    decreases e,
{
    e.len() == 0 || (terms_ok(e.drop_last()) && e.last().1.len() > 0 && factors_ok(e.last().1))
}

/// A sum with at least one term, whose variables are letters.
pub open spec fn sum_ok(e: SExpr) -> bool {
    e.len() > 0 && terms_ok(e)
}

pub open spec fn item_ok(x: SItem) -> bool {
    match x {
        SItem::Expr(e) => sum_ok(e),
        SItem::Str(_) => true,
    }
}

pub open spec fn print_ok(items: Seq<SItem>) -> bool {
    forall|k: int| 0 <= k < items.len() ==> item_ok(#[trigger] items[k])
}

pub open spec fn input_ok(vars: Seq<char>) -> bool {
    forall|k: int| 0 <= k < vars.len() ==> is_c_var(#[trigger] vars[k])
}

/// A statement of the grammar, with letters as variables and no empty sum or
/// product.
pub open spec fn statement_ok(s: SStatement) -> bool
    decreases s,
{
    match s {
        SStatement::Print(items) => print_ok(items),
        SStatement::If(l, _, rr, then) => sum_ok(l) && sum_ok(rr) && statement_ok(*then),
        SStatement::Goto(e) => sum_ok(e),
        SStatement::Input(vars) => input_ok(vars),
        SStatement::Let(v, e) => is_c_var(v) && sum_ok(e),
        SStatement::Gosub(e) => sum_ok(e),
        _ => true,
    }
}

/// Line numbers that strictly increase, as parsing ensures, and statements of
/// the grammar.
pub open spec fn program_ok(lines: Seq<SLine>) -> bool {
    &&& crate::parser::strictly_increasing(lines)
    &&& forall|k: int| 0 <= k < lines.len() ==> statement_ok(#[trigger] lines[k].statement)
}

fn check_var(c: char) -> (r: bool)
    ensures
        r == is_c_var(c),
{
    ('a' <= c && c <= 'z') || ('A' <= c && c <= 'Z')
}

fn check_factor(input: &Factor) -> (r: bool)
    ensures
        r == factor_ok(factor_model(*input)),
    decreases input,
{
    match input {
        Factor::Var(v) => check_var(*v),
        Factor::Number(_) => true,
        Factor::Expression(e) => e.len() > 0 && check_terms(e),
    }
}

fn check_factors(input: &Term) -> (r: bool)
    ensures
        r == factors_ok(term_model_seq(input@)),
    decreases input,
{
    let mut ok = true;
    let mut k: usize = 0;
    proof {
        assert(input@.subrange(0, 0) =~= Seq::<(MultiplyDivide, Factor)>::empty());
    }
    while k < input.len()
        invariant
            k <= input@.len(),
            ok == factors_ok(term_model_seq(input@.subrange(0, k as int))),
        decreases input@.len() - k,
    {
        let f_ok = check_factor(&input[k].1);
        proof {
            let p = input@.subrange(0, k as int + 1);
            assert(p.drop_last() =~= input@.subrange(0, k as int));
            let m = term_model_seq(p);
            assert(m.drop_last() =~= term_model_seq(input@.subrange(0, k as int)));
        }
        ok = ok && f_ok;
        k = k + 1;
    }
    assert(input@.subrange(0, input@.len() as int) =~= input@);
    ok
}

fn check_terms(input: &Expr) -> (r: bool)
    ensures
        r == terms_ok(expr_model(*input)),
    decreases input,
{
    let mut ok = true;
    let mut k: usize = 0;
    proof {
        assert(input@.subrange(0, 0) =~= Seq::<(AddSubtract, Term)>::empty());
    }
    while k < input.len()
        invariant
            k <= input@.len(),
            ok == terms_ok(expr_model_seq(input@.subrange(0, k as int))),
        decreases input@.len() - k,
    {
        let t = &input[k].1;
        let t_ok = t.len() > 0 && check_factors(t);
        proof {
            let p = input@.subrange(0, k as int + 1);
            assert(p.drop_last() =~= input@.subrange(0, k as int));
            let m = expr_model_seq(p);
            assert(m.drop_last() =~= expr_model_seq(input@.subrange(0, k as int)));
            assert(term_model_seq(t@).len() == t@.len()) by {
                lemma_term_model_len(t@);
            }
        }
        ok = ok && t_ok;
        k = k + 1;
    }
    assert(input@.subrange(0, input@.len() as int) =~= input@);
    ok
}

proof fn lemma_term_model_len(s: Seq<(MultiplyDivide, Factor)>)
    ensures
        term_model_seq(s).len() == s.len(),
    decreases s.len(),
{
    if s.len() > 0 {
        lemma_term_model_len(s.drop_last());
    }
}

proof fn lemma_expr_model_len(s: Seq<(AddSubtract, Term)>)
    ensures
        expr_model_seq(s).len() == s.len(),
    decreases s.len(),
{
    if s.len() > 0 {
        lemma_expr_model_len(s.drop_last());
    }
}

fn check_sum(input: &Expr) -> (r: bool)
    ensures
        r == sum_ok(expr_model(*input)),
{
    proof {
        lemma_expr_model_len(input@);
    }
    input.len() > 0 && check_terms(input)
}

fn check_statement(input: &Statement) -> (r: bool)
    ensures
        r == statement_ok(statement_model(*input)),
    decreases input,
{
    match input {
        Statement::Print(items) => {
            let ghost model = items@.map_values(|x: ExprOrString| item_model(x));
            let mut k: usize = 0;
            while k < items.len()
                invariant
                    k <= items@.len(),
                    model == items@.map_values(|x: ExprOrString| item_model(x)),
                    statement_model(*input) == SStatement::Print(model),
                    forall|j: int| 0 <= j < k ==> item_ok(#[trigger] model[j]),
                decreases items@.len() - k,
            {
                match &items[k] {
                    ExprOrString::Expr(e) => {
                        if !check_sum(e) {
                            assert(model[k as int] == item_model(items@[k as int]));
                            assert(!item_ok(model[k as int]));
                            assert(statement_model(*input) == SStatement::Print(model));
                            assert(0 <= k < model.len());
                            assert(!print_ok(model));
                            return false;
                        }
                    },
                    ExprOrString::String(_) => {},
                }
                k = k + 1;
            }
            assert(statement_model(*input) == SStatement::Print(model));
            true
        },
        Statement::If(l, _, rr, then) => check_sum(l) && check_sum(rr) && check_statement(then),
        Statement::Goto(e) => check_sum(e),
        Statement::Input(vars) => {
            let mut k: usize = 0;
            while k < vars.len()
                invariant
                    k <= vars@.len(),
                    statement_model(*input) == SStatement::Input(vars@),
                    forall|j: int| 0 <= j < k ==> is_c_var(#[trigger] vars@[j]),
                decreases vars@.len() - k,
            {
                if !check_var(vars[k]) {
                    assert(!is_c_var(vars@[k as int]));
                    assert(statement_model(*input) == SStatement::Input(vars@));
                    assert(!input_ok(vars@));
                    return false;
                }
                k = k + 1;
            }
            true
        },
        Statement::Let(v, e) => check_var(*v) && check_sum(e),
        Statement::Gosub(e) => check_sum(e),
        _ => true,
    }
}

/// Generates the C program for a sequence of parsed lines. Every program that
/// `parse` returns has a translation; only lines built otherwise, with line
/// numbers that do not strictly increase, a variable that is not a letter, or
/// an empty sum or product, have none.
#[verifier::rlimit(40)]
pub fn transpile(input: Vec<Line>) -> (r: Result<String, TranspileError>)
    ensures
        r is Ok <==> program_ok(lines_model(input@)),
        r matches Ok(text) ==> text@ == program_text(lines_model(input@)),
        r is Err ==> r == Err::<String, TranspileError>(TranspileError::InvalidStatement),
{
    let ghost model = lines_model(input@);
    let mut j: usize = 0;
    while j < input.len()
        invariant
            j <= input@.len(),
            model == lines_model(input@),
            forall|m: int| 0 <= m < j ==> statement_ok(#[trigger] model[m].statement),
            forall|a: int, b: int| 0 <= a < b < j ==> model[a].number < model[b].number,
        decreases input@.len() - j,
    {
        if j > 0 && input[j].0 <= input[j - 1].0 {
            assert(model[j - 1].number >= model[j as int].number);
            return Err(TranspileError::InvalidStatement);
        }
        proof {
            assert forall|a: int, b: int| 0 <= a < b < j + 1 implies model[a].number < model[b].number by {
                if b == j && a < j - 1 {
                    assert(model[a].number < model[j - 1].number);
                }
            }
        }
        if !check_statement(&input[j].1) {
            assert(!statement_ok(model[j as int].statement));
            return Err(TranspileError::InvalidStatement);
        }
        j = j + 1;
    }
    let mut output = String::new();
    emit(&mut output, "#include <stdio.h>\n\nint main() {\nunsigned int A = 0u, B = 0u, C = 0u, D = 0u, E = 0u, F = 0u, G = 0u, H = 0u, I = 0u, J = 0u, K = 0u, L = 0u, M = 0u, N = 0u, O = 0u, P = 0u, Q = 0u, R = 0u, S = 0u, T = 0u, U = 0u, V = 0u, W = 0u, X = 0u, Y = 0u, Z = 0u;\nunsigned long long stack[256];\nunsigned int sp = 0u;\nunsigned long long pc = ");
    if input.len() > 0 {
        transpile_key(&mut output, input[0].0);
    } else {
        transpile_halt_key(&mut output);
    }
    emit(&mut output, ";\nwhile (pc != 4294967296ull) {\nswitch (pc) {\n");
    let ghost start = output@;
    proof {
        assert(start == prologue_text() + key_text(first_key(model)) + loop_head_text());
        assert(output@ =~= start + cases_text(model, 0));
    }
    let mut k: usize = 0;
    while k < input.len()
        invariant
            k <= input@.len(),
            model == lines_model(input@),
            output@ == start + cases_text(model, k as int),
        decreases input@.len() - k,
    {
        let next = if k + 1 < input.len() {
            Some(input[k + 1].0)
        } else {
            None
        };
        transpile_line(&input[k], next, &mut output);
        proof {
            assert(next_key_of(next) == next_key(model, k as int));
            assert(output@ =~= start + cases_text(model, k as int + 1));
        }
        k = k + 1;
    }
    emit(&mut output, "default:\nreturn 1;\n}\n}\nreturn 0;\n}\n");
    assert(output@ =~= program_text(model));
    assert(program_ok(model));
    Ok(output)
}

/// In a program whose line numbers strictly increase, distinct lines have
/// distinct dispatch keys, there is one key per line, and no key is the
/// halting key.
pub proof fn lemma_dispatch_keys_distinct(lines: Seq<SLine>)
    requires
        crate::parser::strictly_increasing(lines),
    ensures
        dispatch_keys(lines).len() == lines.len(),
        forall|a: int, b: int|
            0 <= a < lines.len() && 0 <= b < lines.len() && a != b ==> dispatch_keys(lines)[a]
                != dispatch_keys(lines)[b],
        forall|a: int| 0 <= a < lines.len() ==> dispatch_keys(lines)[a] != halt_key(),
{
    assert forall|a: int, b: int|
        0 <= a < lines.len() && 0 <= b < lines.len() && a != b implies dispatch_keys(lines)[a]
            != dispatch_keys(lines)[b] by {
        if a < b {
            assert(lines[a].number < lines[b].number);
        } else {
            assert(lines[b].number < lines[a].number);
        }
    }
}

// ---------------------------------------------------------------------------
// Every program read from source text has a translation

pub open spec fn var_token_ok(tok: Token) -> bool {
    match tok {
        Token::Var(c) => is_letter(c),
        _ => true,
    }
}

/// Every variable token is a letter, as the lexer makes them.
pub open spec fn vars_are_letters(t: Seq<Token>) -> bool {
    forall|k: int| 0 <= k < t.len() ==> var_token_ok(#[trigger] t[k])
}

pub open spec fn model_var_ok(m: TokenModel) -> bool {
    match m {
        TokenModel::Plain(tok) => var_token_ok(tok),
        _ => true,
    }
}

proof fn lemma_factor_ok(t: Seq<Token>, i: int)
    requires
        vars_are_letters(t),
    ensures
        factor_spec(t, i) matches Ok((f, _)) ==> factor_ok(f),
    decreases t.len() - i, 0int,
{
    if 0 <= i < t.len() {
        assert(var_token_ok(t[i]));
        if t[i] is LeftParen {
            lemma_expr_ok(t, i + 1);
        }
    }
}

proof fn lemma_term_tail_ok(t: Seq<Token>, i: int, acc: STerm)
    requires
        vars_are_letters(t),
        acc.len() > 0,
        factors_ok(acc),
    ensures
        term_tail_spec(t, i, acc) matches Ok((m, _)) ==> m.len() > 0 && factors_ok(m),
    decreases t.len() - i, 1int,
{
    if 0 <= i < t.len() && (t[i] is Multiply || t[i] is Divide) {
        let op = if t[i] is Multiply {
            MultiplyDivide::Multiply
        } else {
            MultiplyDivide::Divide
        };
        lemma_factor_ok(t, i + 1);
        if let Ok((f, j)) = factor_spec(t, i + 1) {
            if i < j <= t.len() {
                let next = acc.push((op, f));
                assert(next.drop_last() =~= acc);
                lemma_term_tail_ok(t, j, next);
            }
        }
    }
}

proof fn lemma_term_ok(t: Seq<Token>, i: int)
    requires
        vars_are_letters(t),
    ensures
        term_spec(t, i) matches Ok((m, _)) ==> m.len() > 0 && factors_ok(m),
    decreases t.len() - i, 2int,
{
    if !(i < 0 || i >= t.len() || t[i] is CarrigeReturn) {
        lemma_factor_ok(t, i);
        if let Ok((f, j)) = factor_spec(t, i) {
            if i < j <= t.len() {
                let first = seq![(MultiplyDivide::Multiply, f)];
                assert(first.drop_last() =~= Seq::<(MultiplyDivide, SFactor)>::empty());
                assert(factors_ok(first.drop_last()));
                lemma_term_tail_ok(t, j, first);
            }
        }
    }
}

proof fn lemma_expr_tail_ok(t: Seq<Token>, i: int, acc: SExpr)
    requires
        vars_are_letters(t),
        sum_ok(acc),
    ensures
        expr_tail_spec(t, i, acc) matches Ok((e, _)) ==> sum_ok(e),
    decreases t.len() - i, 3int,
{
    if 0 <= i < t.len() && (t[i] is Add || t[i] is Subtract) {
        let op = if t[i] is Add {
            AddSubtract::Add
        } else {
            AddSubtract::Subtract
        };
        lemma_term_ok(t, i + 1);
        if let Ok((m, j)) = term_spec(t, i + 1) {
            if i < j <= t.len() {
                let next = acc.push((op, m));
                assert(next.drop_last() =~= acc);
                lemma_expr_tail_ok(t, j, next);
            }
        }
    }
}

proof fn lemma_expr_ok(t: Seq<Token>, i: int)
    requires
        vars_are_letters(t),
    ensures
        expr_spec(t, i) matches Ok((e, _)) ==> sum_ok(e),
    decreases t.len() - i, 4int,
{
    if !(i < 0 || i >= t.len() || t[i] is CarrigeReturn) {
        let op = if t[i] is Subtract {
            AddSubtract::Subtract
        } else {
            AddSubtract::Add
        };
        let k = if t[i] is Subtract || t[i] is Add {
            i + 1
        } else {
            i
        };
        lemma_term_ok(t, k);
        if let Ok((m, j)) = term_spec(t, k) {
            if i < j <= t.len() {
                let first = seq![(op, m)];
                assert(first.drop_last() =~= Seq::<(AddSubtract, STerm)>::empty());
                assert(terms_ok(first.drop_last()));
                lemma_expr_tail_ok(t, j, first);
            }
        }
    }
}

proof fn lemma_print_ok(t: Seq<Token>, i: int, acc: Seq<SItem>)
    requires
        vars_are_letters(t),
        print_ok(acc),
    ensures
        print_spec(t, i, acc) matches Ok((s, _)) ==> statement_ok(s),
    decreases t.len() - i,
{
    if 0 <= i < t.len() && !(t[i] is CarrigeReturn) {
        lemma_expr_ok(t, i);
        if let Ok((x, j)) = item_spec(t, i) {
            if i < j <= t.len() {
                let next = acc.push(x);
                assert(item_ok(x));
                assert forall|k: int| 0 <= k < next.len() implies item_ok(#[trigger] next[k]) by {
                    if k < acc.len() {
                        assert(next[k] == acc[k]);
                    }
                }
                lemma_print_ok(t, j, next);
            }
        }
    }
}

proof fn lemma_input_ok(t: Seq<Token>, i: int, acc: Seq<char>)
    requires
        vars_are_letters(t),
        input_ok(acc),
    ensures
        input_spec(t, i, acc) matches Ok((s, _)) ==> statement_ok(s),
    decreases t.len() - i,
{
    if 0 <= i < t.len() {
        assert(var_token_ok(t[i]));
        if let Token::Var(v) = t[i] {
            let next = acc.push(v);
            assert forall|k: int| 0 <= k < next.len() implies is_c_var(#[trigger] next[k]) by {
                if k < acc.len() {
                    assert(next[k] == acc[k]);
                }
            }
            lemma_input_ok(t, i + 1, next);
        }
    }
}

proof fn lemma_if_ok(t: Seq<Token>, i: int)
    requires
        vars_are_letters(t),
    ensures
        if_spec(t, i) matches Ok((s, _)) ==> statement_ok(s),
    decreases t.len() - i, 0int,
{
    lemma_expr_ok(t, i);
    if let Ok((l, j)) = expr_spec(t, i) {
        if let Ok((r, k)) = relop_spec(t, j) {
            lemma_expr_ok(t, k);
            if let Ok((rr, m)) = expr_spec(t, k) {
                if i <= m < t.len() && t[m] is Then {
                    lemma_statement_ok(t, m + 1);
                }
            }
        }
    }
}

proof fn lemma_statement_ok(t: Seq<Token>, i: int)
    requires
        vars_are_letters(t),
    ensures
        statement_spec(t, i) matches Ok((s, _)) ==> statement_ok(s),
    decreases t.len() - i, 1int,
{
    if 0 <= i < t.len() {
        match t[i] {
            Token::Print => lemma_print_ok(t, i + 1, seq![]),
            Token::If => lemma_if_ok(t, i + 1),
            Token::Input => lemma_input_ok(t, i + 1, seq![]),
            Token::Goto | Token::Gosub => lemma_expr_ok(t, i + 1),
            Token::Let => {
                lemma_expr_ok(t, i + 3);
                if i + 1 < t.len() {
                    assert(var_token_ok(t[i + 1]));
                }
            },
            _ => {},
        }
    }
}

proof fn lemma_program_ok(t: Seq<Token>, i: int, acc: Seq<SLine>)
    requires
        vars_are_letters(t),
        forall|k: int| 0 <= k < acc.len() ==> statement_ok(#[trigger] acc[k].statement),
    ensures
        program_spec(t, i, acc) matches Ok(ls) ==> forall|k: int|
            0 <= k < ls.len() ==> statement_ok(#[trigger] ls[k].statement),
    decreases t.len() - i,
{
    if 0 <= i < t.len() {
        if t[i] is CarrigeReturn {
            lemma_program_ok(t, i + 1, acc);
        } else {
            lemma_statement_ok(t, i + 1);
            if let Ok((l, j)) = line_spec(t, i) {
                if i < j <= t.len() {
                    let next = acc.push(l);
                    assert forall|k: int| 0 <= k < next.len() implies statement_ok(
                        #[trigger] next[k].statement,
                    ) by {
                        if k < acc.len() {
                            assert(next[k] == acc[k]);
                        }
                    }
                    lemma_program_ok(t, j, next);
                }
            }
        }
    }
}

proof fn lemma_lex_letters(s: Seq<char>, i: int, acc: Seq<TokenModel>)
    requires
        forall|k: int| 0 <= k < acc.len() ==> model_var_ok(#[trigger] acc[k]),
    ensures
        lex_spec(s, i, acc) matches Ok(v) ==> forall|k: int| 0 <= k < v.len() ==> model_var_ok(#[trigger] v[k]),
    decreases s.len() - i,
{
    if 0 <= i < s.len() {
        lemma_runs_in_bounds(s, i + 1);
        let c = s[i];
        let next_is = |d: char| i + 1 < s.len() && s[i + 1] == d;
        assert forall|x: TokenModel| model_var_ok(x) implies forall|k: int|
            0 <= k < acc.push(x).len() ==> model_var_ok(#[trigger] acc.push(x)[k]) by {
            assert forall|k: int| 0 <= k < acc.push(x).len() implies model_var_ok(#[trigger] acc.push(x)[k]) by {
                if k < acc.len() {
                    assert(acc.push(x)[k] == acc[k]);
                }
            }
        }
        if c == ' ' || c == '\t' {
            lemma_lex_letters(s, i + 1, acc);
        } else if single_token(c) is Some {
            lemma_lex_letters(s, i + 1, acc.push(TokenModel::Plain(single_token(c)->0)));
        } else if c == '<' && next_is('>') {
            lemma_lex_letters(s, i + 2, acc.push(TokenModel::Plain(Token::NotEquals)));
        } else if c == '<' && next_is('=') {
            lemma_lex_letters(s, i + 2, acc.push(TokenModel::Plain(Token::LessThanEquals)));
        } else if c == '<' {
            lemma_lex_letters(s, i + 1, acc.push(TokenModel::Plain(Token::LessThan)));
        } else if c == '>' && next_is('=') {
            lemma_lex_letters(s, i + 2, acc.push(TokenModel::Plain(Token::GreaterThanEquals)));
        } else if c == '>' {
            lemma_lex_letters(s, i + 1, acc.push(TokenModel::Plain(Token::GreaterThan)));
        } else if is_letter(c) {
            let j = i + 1 + letters_len(s, i + 1);
            let w = s.subrange(i, j);
            match keyword(w) {
                Some(k) => lemma_lex_letters(s, j, acc.push(TokenModel::Plain(k))),
                None => if w.len() == 1 {
                    lemma_lex_letters(s, j, acc.push(TokenModel::Plain(Token::Var(c))));
                },
            }
        } else if is_digit(c) {
            let j = i + 1 + digits_len(s, i + 1);
            lemma_lex_letters(s, j, acc.push(TokenModel::Number(s.subrange(i, j))));
        } else if c == '"' {
            let k = i + 1 + unquoted_len(s, i + 1);
            if k < s.len() {
                lemma_lex_letters(s, k + 1, acc.push(TokenModel::Str(s.subrange(i + 1, k))));
            }
        }
    }
}

/// Every program that `parse` accepts from the tokens that `lex` gives has a
/// translation: its line numbers strictly increase and its statements are of
/// the grammar, so `transpile` returns `Ok` on it.
pub proof fn lemma_lexed_programs_translate(s: Seq<char>, t: Seq<Token>)
    requires
        lex_spec(s, 0, seq![]) == Ok::<Seq<TokenModel>, LexFailure>(tokens_model(t)),
    ensures
        parse_spec(t) matches Ok(ls) ==> program_ok(ls),
{
    let none: Seq<TokenModel> = seq![];
    lemma_lex_letters(s, 0, none);
    let v = tokens_model(t);
    assert(lex_spec(s, 0, none) == Ok::<Seq<TokenModel>, LexFailure>(v));
    assert(lex_spec(s, 0, none) matches Ok(w) && w == v);
    assert forall|k: int| 0 <= k < t.len() implies var_token_ok(#[trigger] t[k]) by {
        assert(v[k] == crate::lexer::token_model(t[k]));
        assert(model_var_ok(v[k]));
    }
    lemma_program_ok(t, 0, seq![]);
    lemma_parse_gives_lines_read(t);
}

} // verus!

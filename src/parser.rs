//! Recursive-descent parser from tokens to numbered lines.
//!
//! The grammar is stated once, as spec functions over a token sequence and a
//! position (`expr_spec`, `statement_spec`, `program_spec`, ...), each giving
//! the value read and the position after it, or the first error. The
//! executable parser is proved to compute exactly those functions, through the
//! models (`factor_model`, `statement_model`, ...) of its syntax trees.
use vstd::prelude::*;
use crate::lexer::Token;
use crate::text::{parse_u32, parse_u32_spec};

verus! {

broadcast use vstd::std_specs::vec::group_vec_axioms, vstd::seq::group_seq_axioms;

pub type Number = u32;

#[derive(Debug)]
pub struct Line(pub Number, pub Statement);

#[derive(Debug)]
pub enum Statement {
    Print(Vec<ExprOrString>),
    If(Expr, Relop, Expr, Box<Statement>),
    Goto(Expr),
    Input(Vec<char>),
    Let(char, Expr),
    Gosub(Expr),
    Return,
    Clear,
    List,
    Run,
    End,
}

#[derive(Debug)]
pub enum ExprOrString {
    Expr(Expr),
    String(String),
}

/// A sum of signed terms; the sign of the first term is its leading sign.
pub type Expr = Vec<(AddSubtract, Term)>;

#[derive(Debug, Clone, Copy, PartialEq, Eq, Structural)]
pub enum AddSubtract {
    Add,
    Subtract,
}

/// A product of factors; the first factor always carries `Multiply`.
pub type Term = Vec<(MultiplyDivide, Factor)>;

#[derive(Debug, Clone, Copy, PartialEq, Eq, Structural)]
pub enum MultiplyDivide {
    Multiply,
    Divide,
}

#[derive(Debug)]
pub enum Factor {
    Var(char),
    Number(Number),
    Expression(Expr),
}

#[derive(Debug, Clone, Copy, PartialEq, Eq, Structural)]
pub enum Relop {
    Equals,
    NotEquals,
    GreaterThan,
    GreaterThanEquals,
    LessThan,
    LessThanEquals,
}

#[derive(Debug, Clone, Copy, PartialEq, Eq, Structural)]
pub enum ParserError {
    LineNumbersNotIncrementing,
    InvalidLineNumber,
    InvalidLine,
    EmptyStatement,
    InvalidStatement,
    EmptyExpr,
    EmptyTerm,
    InvalidFactorNumber,
    MissingRightParen,
    MissingLeftParen,
    InvalidIf,
    InvalidRelop,
    InvalidInput,
    InvalidLet,
}

// ---------------------------------------------------------------------------
// Mathematical syntax trees

pub enum SFactor {
    Var(char),
    Number(u32),
    Expression(Seq<(AddSubtract, Seq<(MultiplyDivide, SFactor)>)>),
}

pub type STerm = Seq<(MultiplyDivide, SFactor)>;

pub type SExpr = Seq<(AddSubtract, STerm)>;

pub enum SItem {
    Expr(SExpr),
    Str(Seq<char>),
}

pub enum SStatement {
    Print(Seq<SItem>),
    If(SExpr, Relop, SExpr, Box<SStatement>),
    Goto(SExpr),
    Input(Seq<char>),
    Let(char, SExpr),
    Gosub(SExpr),
    Return,
    Clear,
    List,
    Run,
    End,
}

pub struct SLine {
    pub number: u32,
    pub statement: SStatement,
}

pub open spec fn factor_model(f: Factor) -> SFactor
    decreases f,
{
    match f {
        Factor::Var(v) => SFactor::Var(v),
        Factor::Number(n) => SFactor::Number(n),
        Factor::Expression(e) => SFactor::Expression(expr_model_seq(e@)),
    }
}

pub open spec fn term_model_seq(s: Seq<(MultiplyDivide, Factor)>) -> STerm
    decreases s,
{
    if s.len() == 0 {
        seq![]
    } else {
        term_model_seq(s.drop_last()).push((s.last().0, factor_model(s.last().1)))
    }
}

pub open spec fn expr_model_seq(s: Seq<(AddSubtract, Term)>) -> SExpr
    decreases s,
{
    if s.len() == 0 {
        seq![]
    } else {
        expr_model_seq(s.drop_last()).push((s.last().0, term_model_seq(s.last().1@)))
    }
}

pub open spec fn term_model(t: Term) -> STerm {
    term_model_seq(t@)
}

pub open spec fn expr_model(e: Expr) -> SExpr {
    expr_model_seq(e@)
}

pub open spec fn term_result(r: Result<(Term, usize), ParserError>) -> Result<(STerm, int), ParserError> {
    match r {
        Ok((t, j)) => Ok((term_model(t), j as int)),
        Err(e) => Err(e),
    }
}

pub open spec fn expr_result(r: Result<(Expr, usize), ParserError>) -> Result<(SExpr, int), ParserError> {
    match r {
        Ok((e, j)) => Ok((expr_model(e), j as int)),
        Err(e) => Err(e),
    }
}

pub open spec fn factor_result(r: Result<(Factor, usize), ParserError>) -> Result<(SFactor, int), ParserError> {
    match r {
        Ok((f, j)) => Ok((factor_model(f), j as int)),
        Err(e) => Err(e),
    }
}

/// The position after a successful read: every production reads at least one
/// token and stays within the sequence.
pub open spec fn advances<T>(r: Result<(T, usize), ParserError>, i: int, len: int) -> bool {
    match r {
        Ok((_, j)) => i < j <= len,
        Err(_) => true,
    }
}

// ---------------------------------------------------------------------------
// The grammar of expressions
//
// Each function reads from position `i` of `t`. Where a recursive call starts
// after a read, the read is known to have advanced (see `advances`); the
// fallback for the other case never happens and only makes the measure plain.

/// `Factor -> Var | Number | '(' Expr ')'`
pub open spec fn factor_spec(t: Seq<Token>, i: int) -> Result<(SFactor, int), ParserError>
    decreases t.len() - i, 0int,
{
    if i < 0 || i >= t.len() {
        Err(ParserError::MissingLeftParen)
    } else {
        match t[i] {
            Token::Var(v) => Ok((SFactor::Var(v), i + 1)),
            Token::Number(n) => match parse_u32_spec(n@) {
                Some(x) => Ok((SFactor::Number(x), i + 1)),
                None => Err(ParserError::InvalidFactorNumber),
            },
            Token::LeftParen => match expr_spec(t, i + 1) {
                Ok((e, j)) => if 0 <= j < t.len() && t[j] is RightParen {
                    Ok((SFactor::Expression(e), j + 1))
                } else {
                    Err(ParserError::MissingRightParen)
                },
                Err(x) => Err(x),
            },
            _ => Err(ParserError::MissingLeftParen),
        }
    }
}

/// `{ ('*' | '/') Factor }`, appended to the factors `acc` already read.
pub open spec fn term_tail_spec(t: Seq<Token>, i: int, acc: STerm) -> Result<(STerm, int), ParserError>
    decreases t.len() - i, 1int,
{
    if 0 <= i < t.len() && (t[i] is Multiply || t[i] is Divide) {
        let op = if t[i] is Multiply {
            MultiplyDivide::Multiply
        } else {
            MultiplyDivide::Divide
        };
        match factor_spec(t, i + 1) {
            Ok((f, j)) => if i < j <= t.len() {
                term_tail_spec(t, j, acc.push((op, f)))
            } else {
                Err(ParserError::EmptyTerm)
            },
            Err(x) => Err(x),
        }
    } else {
        Ok((acc, i))
    }
}

/// `Term -> Factor { ('*' | '/') Factor }`
pub open spec fn term_spec(t: Seq<Token>, i: int) -> Result<(STerm, int), ParserError>
    decreases t.len() - i, 2int,
{
    if i < 0 || i >= t.len() || t[i] is CarrigeReturn {
        Err(ParserError::EmptyTerm)
    } else {
        match factor_spec(t, i) {
            Ok((f, j)) => if i < j <= t.len() {
                term_tail_spec(t, j, seq![(MultiplyDivide::Multiply, f)])
            } else {
                Err(ParserError::EmptyTerm)
            },
            Err(x) => Err(x),
        }
    }
}

/// `{ ('+' | '-') Term }`, appended to the terms `acc` already read.
pub open spec fn expr_tail_spec(t: Seq<Token>, i: int, acc: SExpr) -> Result<(SExpr, int), ParserError>
    decreases t.len() - i, 3int,
{
    if 0 <= i < t.len() && (t[i] is Add || t[i] is Subtract) {
        let op = if t[i] is Add {
            AddSubtract::Add
        } else {
            AddSubtract::Subtract
        };
        match term_spec(t, i + 1) {
            Ok((m, j)) => if i < j <= t.len() {
                expr_tail_spec(t, j, acc.push((op, m)))
            } else {
                Err(ParserError::EmptyExpr)
            },
            Err(x) => Err(x),
        }
    } else {
        Ok((acc, i))
    }
}

/// `Expr -> ['+' | '-'] Term { ('+' | '-') Term }`: a sign is allowed on the
/// first term only, and a missing one reads as `+`.
pub open spec fn expr_spec(t: Seq<Token>, i: int) -> Result<(SExpr, int), ParserError>
    decreases t.len() - i, 4int,
{
    if i < 0 || i >= t.len() || t[i] is CarrigeReturn {
        Err(ParserError::EmptyExpr)
    } else {
        let op = if t[i] is Subtract {
            AddSubtract::Subtract
        } else {
            AddSubtract::Add
        };
        let k = if t[i] is Subtract || t[i] is Add {
            i + 1
        } else {
            i
        };
        match term_spec(t, k) {
            Ok((m, j)) => if i < j <= t.len() {
                expr_tail_spec(t, j, seq![(op, m)])
            } else {
                Err(ParserError::EmptyExpr)
            },
            Err(x) => Err(x),
        }
    }
}

// ---------------------------------------------------------------------------
// Parsing expressions

fn parse_factor(tokens: &[Token], i: usize) -> (r: Result<(Factor, usize), ParserError>)
    requires
        i <= tokens@.len(),
    ensures
        factor_result(r) == factor_spec(tokens@, i as int),
        advances(r, i as int, tokens@.len() as int),
    decreases tokens@.len() - i, 0int,
{
    if i >= tokens.len() {
        return Err(ParserError::MissingLeftParen);
    }
    match &tokens[i] {
        Token::Var(v) => Ok((Factor::Var(*v), i + 1)),
        Token::Number(n) => match parse_u32(n.as_str()) {
            Some(x) => Ok((Factor::Number(x), i + 1)),
            None => Err(ParserError::InvalidFactorNumber),
        },
        Token::LeftParen => match parse_expr(tokens, i + 1) {
            Ok((e, j)) => {
                if j < tokens.len() {
                    if let Token::RightParen = &tokens[j] {
                        return Ok((Factor::Expression(e), j + 1));
                    }
                }
                Err(ParserError::MissingRightParen)
            },
            Err(x) => Err(x),
        },
        _ => Err(ParserError::MissingLeftParen),
    }
}

fn parse_term(tokens: &[Token], i: usize) -> (r: Result<(Term, usize), ParserError>)
    requires
        i <= tokens@.len(),
    ensures
        term_result(r) == term_spec(tokens@, i as int),
        advances(r, i as int, tokens@.len() as int),
    decreases tokens@.len() - i, 2int,
{
    if i >= tokens.len() {
        return Err(ParserError::EmptyTerm);
    }
    if let Token::CarrigeReturn = &tokens[i] {
        return Err(ParserError::EmptyTerm);
    }
    let (first, j) = match parse_factor(tokens, i) {
        Ok(p) => p,
        Err(x) => return Err(x),
    };
    let mut output: Term = Vec::new();
    output.push((MultiplyDivide::Multiply, first));
    proof {
        assert(output@.drop_last() =~= Seq::<(MultiplyDivide, Factor)>::empty());
        assert(term_model_seq(output@.drop_last()) =~= seq![]);
        assert(term_model(output) =~= seq![(MultiplyDivide::Multiply, factor_model(first))]);
    }
    let mut rest = j;
    loop
        invariant
            i < rest <= tokens@.len(),
            term_spec(tokens@, i as int) == term_tail_spec(tokens@, rest as int, term_model(output)),
        decreases tokens@.len() - rest,
    {
        if rest >= tokens.len() {
            return Ok((output, rest));
        }
        let op = match &tokens[rest] {
            Token::Multiply => MultiplyDivide::Multiply,
            Token::Divide => MultiplyDivide::Divide,
            _ => return Ok((output, rest)),
        };
        match parse_factor(tokens, rest + 1) {
            Ok((f, k)) => {
                let ghost before = output@;
                output.push((op, f));
                proof {
                    assert(output@.drop_last() =~= before);
                }
                rest = k;
            },
            Err(x) => return Err(x),
        }
    }
}

fn parse_expr(tokens: &[Token], i: usize) -> (r: Result<(Expr, usize), ParserError>)
    requires
        i <= tokens@.len(),
    ensures
        expr_result(r) == expr_spec(tokens@, i as int),
        advances(r, i as int, tokens@.len() as int),
    decreases tokens@.len() - i, 4int,
{
    if i >= tokens.len() {
        return Err(ParserError::EmptyExpr);
    }
    let (sign, k) = match &tokens[i] {
        Token::CarrigeReturn => return Err(ParserError::EmptyExpr),
        Token::Subtract => (AddSubtract::Subtract, i + 1),
        Token::Add => (AddSubtract::Add, i + 1),
        _ => (AddSubtract::Add, i),
    };
    let (first, j) = match parse_term(tokens, k) {
        Ok(p) => p,
        Err(x) => return Err(x),
    };
    let mut output: Expr = Vec::new();
    output.push((sign, first));
    proof {
        assert(output@.drop_last() =~= Seq::<(AddSubtract, Term)>::empty());
        assert(expr_model_seq(output@.drop_last()) =~= seq![]);
        assert(expr_model(output) =~= seq![(sign, term_model(first))]);
    }
    let mut rest = j;
    loop
        invariant
            i < rest <= tokens@.len(),
            expr_spec(tokens@, i as int) == expr_tail_spec(tokens@, rest as int, expr_model(output)),
        decreases tokens@.len() - rest,
    {
        if rest >= tokens.len() {
            return Ok((output, rest));
        }
        let op = match &tokens[rest] {
            Token::Add => AddSubtract::Add,
            Token::Subtract => AddSubtract::Subtract,
            _ => return Ok((output, rest)),
        };
        match parse_term(tokens, rest + 1) {
            Ok((m, k)) => {
                let ghost before = output@;
                output.push((op, m));
                proof {
                    assert(output@.drop_last() =~= before);
                }
                rest = k;
            },
            Err(x) => return Err(x),
        }
    }
}

// ---------------------------------------------------------------------------
// The grammar of statements and programs

pub open spec fn item_model(x: ExprOrString) -> SItem {
    match x {
        ExprOrString::Expr(e) => SItem::Expr(expr_model(e)),
        ExprOrString::String(s) => SItem::Str(s@),
    }
}

pub open spec fn statement_model(s: Statement) -> SStatement
    decreases s,
{
    match s {
        Statement::Print(items) => SStatement::Print(items@.map_values(|x: ExprOrString| item_model(x))),
        Statement::If(l, r, rr, then) => SStatement::If(
            expr_model(l),
            r,
            expr_model(rr),
            Box::new(statement_model(*then)),
        ),
        Statement::Goto(e) => SStatement::Goto(expr_model(e)),
        Statement::Input(vs) => SStatement::Input(vs@),
        Statement::Let(v, e) => SStatement::Let(v, expr_model(e)),
        Statement::Gosub(e) => SStatement::Gosub(expr_model(e)),
        Statement::Return => SStatement::Return,
        Statement::Clear => SStatement::Clear,
        Statement::List => SStatement::List,
        Statement::Run => SStatement::Run,
        Statement::End => SStatement::End,
    }
}

pub open spec fn line_model(l: Line) -> SLine {
    SLine { number: l.0, statement: statement_model(l.1) }
}

pub open spec fn lines_model(v: Seq<Line>) -> Seq<SLine> {
    v.map_values(|l: Line| line_model(l))
}

pub open spec fn statement_result(r: Result<(Statement, usize), ParserError>) -> Result<(SStatement, int), ParserError> {
    match r {
        Ok((s, j)) => Ok((statement_model(s), j as int)),
        Err(e) => Err(e),
    }
}

/// `Relop -> '=' | '<>' | '>' | '>=' | '<' | '<='`
pub open spec fn relop_spec(t: Seq<Token>, i: int) -> Result<(Relop, int), ParserError> {
    if i < 0 || i >= t.len() {
        Err(ParserError::InvalidRelop)
    } else {
        match t[i] {
            Token::Equals => Ok((Relop::Equals, i + 1)),
            Token::NotEquals => Ok((Relop::NotEquals, i + 1)),
            Token::GreaterThan => Ok((Relop::GreaterThan, i + 1)),
            Token::GreaterThanEquals => Ok((Relop::GreaterThanEquals, i + 1)),
            Token::LessThan => Ok((Relop::LessThan, i + 1)),
            Token::LessThanEquals => Ok((Relop::LessThanEquals, i + 1)),
            _ => Err(ParserError::InvalidRelop),
        }
    }
}

/// A `PRINT` item: a string literal, or else an expression.
pub open spec fn item_spec(t: Seq<Token>, i: int) -> Result<(SItem, int), ParserError> {
    if 0 <= i < t.len() && t[i] is String {
        match t[i] {
            Token::String(s) => Ok((SItem::Str(s@), i + 1)),
            _ => Err(ParserError::EmptyExpr),
        }
    } else {
        match expr_spec(t, i) {
            Ok((e, j)) => Ok((SItem::Expr(e), j)),
            Err(x) => Err(x),
        }
    }
}

/// The items of a `PRINT` up to the end of the line (the line break is read)
/// or of the input, appended to the items `acc` already read.
pub open spec fn print_spec(t: Seq<Token>, i: int, acc: Seq<SItem>) -> Result<(SStatement, int), ParserError>
    decreases t.len() - i,
{
    if i < 0 || i >= t.len() {
        Ok((SStatement::Print(acc), i))
    } else if t[i] is CarrigeReturn {
        Ok((SStatement::Print(acc), i + 1))
    } else {
        match item_spec(t, i) {
            Ok((x, j)) => if i < j <= t.len() {
                print_spec(t, j, acc.push(x))
            } else {
                Err(ParserError::EmptyExpr)
            },
            Err(x) => Err(x),
        }
    }
}

/// The variables of an `INPUT` up to the end of the line or of the input.
pub open spec fn input_spec(t: Seq<Token>, i: int, acc: Seq<char>) -> Result<(SStatement, int), ParserError>
    decreases t.len() - i,
{
    if i < 0 || i >= t.len() {
        Ok((SStatement::Input(acc), i))
    } else {
        match t[i] {
            Token::CarrigeReturn => Ok((SStatement::Input(acc), i + 1)),
            Token::Var(v) => input_spec(t, i + 1, acc.push(v)),
            _ => Err(ParserError::InvalidInput),
        }
    }
}

/// `LET Var '=' Expr`, from the token after `LET`.
pub open spec fn let_spec(t: Seq<Token>, i: int) -> Result<(SStatement, int), ParserError> {
    if 0 <= i && i + 1 < t.len() && t[i + 1] is Equals {
        match t[i] {
            Token::Var(v) => match expr_spec(t, i + 2) {
                Ok((e, j)) => Ok((SStatement::Let(v, e), j)),
                Err(x) => Err(x),
            },
            _ => Err(ParserError::InvalidLet),
        }
    } else {
        Err(ParserError::InvalidLet)
    }
}

/// `IF Expr Relop Expr THEN Statement`, from the token after `IF`.
pub open spec fn if_spec(t: Seq<Token>, i: int) -> Result<(SStatement, int), ParserError>
    decreases t.len() - i, 0int,
{
    match expr_spec(t, i) {
        Ok((l, j)) => match relop_spec(t, j) {
            Ok((r, k)) => match expr_spec(t, k) {
                Ok((rr, m)) => if i <= m < t.len() && t[m] is Then {
                    match statement_spec(t, m + 1) {
                        Ok((s, n)) => Ok((SStatement::If(l, r, rr, Box::new(s)), n)),
                        Err(x) => Err(x),
                    }
                } else {
                    Err(ParserError::InvalidIf)
                },
                Err(x) => Err(x),
            },
            Err(x) => Err(x),
        },
        Err(x) => Err(x),
    }
}

/// `Statement`: a keyword and what that keyword takes. A line break or the
/// end of the input where a statement should start is an empty statement.
pub open spec fn statement_spec(t: Seq<Token>, i: int) -> Result<(SStatement, int), ParserError>
    decreases t.len() - i, 1int,
{
    if i < 0 || i >= t.len() {
        Err(ParserError::EmptyStatement)
    } else {
        match t[i] {
            Token::Print => print_spec(t, i + 1, seq![]),
            Token::If => if_spec(t, i + 1),
            Token::Goto => match expr_spec(t, i + 1) {
                Ok((e, j)) => Ok((SStatement::Goto(e), j)),
                Err(x) => Err(x),
            },
            Token::Input => input_spec(t, i + 1, seq![]),
            Token::Let => let_spec(t, i + 1),
            Token::Gosub => match expr_spec(t, i + 1) {
                Ok((e, j)) => Ok((SStatement::Gosub(e), j)),
                Err(x) => Err(x),
            },
            Token::Return => Ok((SStatement::Return, i + 1)),
            Token::Clear => Ok((SStatement::Clear, i + 1)),
            Token::List => Ok((SStatement::List, i + 1)),
            Token::Run => Ok((SStatement::Run, i + 1)),
            Token::End => Ok((SStatement::End, i + 1)),
            Token::CarrigeReturn => Err(ParserError::EmptyStatement),
            _ => Err(ParserError::InvalidStatement),
        }
    }
}

/// `Line -> Number Statement`. Where a line should start, a `)` is one that
/// closes no `(`: it stands after a complete statement.
pub open spec fn line_spec(t: Seq<Token>, i: int) -> Result<(SLine, int), ParserError> {
    if 0 <= i < t.len() && t[i] is Number {
        match t[i] {
            Token::Number(n) => match parse_u32_spec(n@) {
                Some(x) => match statement_spec(t, i + 1) {
                    Ok((s, j)) => Ok((SLine { number: x, statement: s }, j)),
                    Err(e) => Err(e),
                },
                None => Err(ParserError::InvalidLineNumber),
            },
            _ => Err(ParserError::InvalidLine),
        }
    } else if 0 <= i < t.len() && t[i] is RightParen {
        Err(ParserError::MissingLeftParen)
    } else {
        Err(ParserError::InvalidLine)
    }
}

/// The lines from position `i` on, appended to the lines `acc` already read;
/// line breaks between lines are skipped, and each line number must exceed the
/// one before it.
pub open spec fn program_spec(t: Seq<Token>, i: int, acc: Seq<SLine>) -> Result<Seq<SLine>, ParserError>
    decreases t.len() - i,
{
    if i < 0 || i >= t.len() {
        Ok(acc)
    } else if t[i] is CarrigeReturn {
        program_spec(t, i + 1, acc)
    } else {
        match line_spec(t, i) {
            Ok((l, j)) => if !(i < j <= t.len()) {
                Err(ParserError::InvalidLine)
            } else if acc.len() > 0 && l.number <= acc.last().number {
                Err(ParserError::LineNumbersNotIncrementing)
            } else {
                program_spec(t, j, acc.push(l))
            },
            Err(e) => Err(e),
        }
    }
}

/// What `parse` gives for a whole token sequence.
pub open spec fn parse_spec(t: Seq<Token>) -> Result<Seq<SLine>, ParserError> {
    program_spec(t, 0, seq![])
}

pub open spec fn strictly_increasing(lines: Seq<SLine>) -> bool {
    forall|a: int, b: int| 0 <= a < b < lines.len() ==> lines[a].number < lines[b].number
}

// ---------------------------------------------------------------------------
// Parsing statements and programs

fn parse_expr_or_string(tokens: &[Token], i: usize) -> (r: Result<(ExprOrString, usize), ParserError>)
    requires
        i <= tokens@.len(),
    ensures
        match r {
            Ok((x, j)) => item_spec(tokens@, i as int) == Ok::<(SItem, int), ParserError>((item_model(x), j as int)),
            Err(e) => item_spec(tokens@, i as int) == Err::<(SItem, int), ParserError>(e),
        },
        advances(r, i as int, tokens@.len() as int),
{
    if i < tokens.len() {
        if let Token::String(s) = &tokens[i] {
            return Ok((ExprOrString::String(s.clone()), i + 1));
        }
    }
    match parse_expr(tokens, i) {
        Ok((e, j)) => Ok((ExprOrString::Expr(e), j)),
        Err(x) => Err(x),
    }
}

fn parse_print(tokens: &[Token], i: usize) -> (r: Result<(Statement, usize), ParserError>)
    requires
        i <= tokens@.len(),
    ensures
        statement_result(r) == print_spec(tokens@, i as int, seq![]),
        advances(r, i as int - 1, tokens@.len() as int),
{
    let mut output: Vec<ExprOrString> = Vec::new();
    let mut rest = i;
    proof {
        assert(output@.map_values(|x: ExprOrString| item_model(x)) =~= seq![]);
    }
    loop
        invariant
            i <= rest <= tokens@.len(),
            print_spec(tokens@, i as int, seq![]) == print_spec(
                tokens@,
                rest as int,
                output@.map_values(|x: ExprOrString| item_model(x)),
            ),
        decreases tokens@.len() - rest,
    {
        if rest >= tokens.len() {
            return Ok((Statement::Print(output), rest));
        }
        if let Token::CarrigeReturn = &tokens[rest] {
            return Ok((Statement::Print(output), rest + 1));
        }
        match parse_expr_or_string(tokens, rest) {
            Ok((x, j)) => {
                let ghost before = output@;
                output.push(x);
                proof {
                    assert(output@.map_values(|x: ExprOrString| item_model(x)) =~= before.map_values(
                        |x: ExprOrString| item_model(x),
                    ).push(item_model(x)));
                }
                rest = j;
            },
            Err(x) => return Err(x),
        }
    }
}

fn parse_input(tokens: &[Token], i: usize) -> (r: Result<(Statement, usize), ParserError>)
    requires
        i <= tokens@.len(),
    ensures
        statement_result(r) == input_spec(tokens@, i as int, seq![]),
        advances(r, i as int - 1, tokens@.len() as int),
{
    let mut output: Vec<char> = Vec::new();
    let mut rest = i;
    loop
        invariant
            i <= rest <= tokens@.len(),
            input_spec(tokens@, i as int, seq![]) == input_spec(tokens@, rest as int, output@),
        decreases tokens@.len() - rest,
    {
        if rest >= tokens.len() {
            return Ok((Statement::Input(output), rest));
        }
        match &tokens[rest] {
            Token::CarrigeReturn => return Ok((Statement::Input(output), rest + 1)),
            Token::Var(v) => {
                output.push(*v);
                rest = rest + 1;
            },
            _ => return Err(ParserError::InvalidInput),
        }
    }
}

fn parse_relop(tokens: &[Token], i: usize) -> (r: Result<(Relop, usize), ParserError>)
    requires
        i <= tokens@.len(),
    ensures
        match r {
            Ok((op, j)) => relop_spec(tokens@, i as int) == Ok::<(Relop, int), ParserError>((op, j as int)),
            Err(e) => relop_spec(tokens@, i as int) == Err::<(Relop, int), ParserError>(e),
        },
        advances(r, i as int, tokens@.len() as int),
{
    if i >= tokens.len() {
        return Err(ParserError::InvalidRelop);
    }
    match &tokens[i] {
        Token::Equals => Ok((Relop::Equals, i + 1)),
        Token::NotEquals => Ok((Relop::NotEquals, i + 1)),
        Token::GreaterThan => Ok((Relop::GreaterThan, i + 1)),
        Token::GreaterThanEquals => Ok((Relop::GreaterThanEquals, i + 1)),
        Token::LessThan => Ok((Relop::LessThan, i + 1)),
        Token::LessThanEquals => Ok((Relop::LessThanEquals, i + 1)),
        _ => Err(ParserError::InvalidRelop),
    }
}

fn parse_let(tokens: &[Token], i: usize) -> (r: Result<(Statement, usize), ParserError>)
    requires
        i <= tokens@.len(),
    ensures
        statement_result(r) == let_spec(tokens@, i as int),
        advances(r, i as int, tokens@.len() as int),
{
    if i < tokens.len() && i + 1 < tokens.len() {
        if let Token::Equals = &tokens[i + 1] {
            if let Token::Var(v) = &tokens[i] {
                return match parse_expr(tokens, i + 2) {
                    Ok((e, j)) => Ok((Statement::Let(*v, e), j)),
                    Err(x) => Err(x),
                };
            }
        }
    }
    Err(ParserError::InvalidLet)
}

fn parse_goto(tokens: &[Token], i: usize) -> (r: Result<(Statement, usize), ParserError>)
    requires
        i <= tokens@.len(),
    ensures
        statement_result(r) == match expr_spec(tokens@, i as int) {
            Ok((e, j)) => Ok((SStatement::Goto(e), j)),
            Err(x) => Err(x),
        },
        advances(r, i as int, tokens@.len() as int),
{
    match parse_expr(tokens, i) {
        Ok((e, j)) => Ok((Statement::Goto(e), j)),
        Err(x) => Err(x),
    }
}

fn parse_gosub(tokens: &[Token], i: usize) -> (r: Result<(Statement, usize), ParserError>)
    requires
        i <= tokens@.len(),
    ensures
        statement_result(r) == match expr_spec(tokens@, i as int) {
            Ok((e, j)) => Ok((SStatement::Gosub(e), j)),
            Err(x) => Err(x),
        },
        advances(r, i as int, tokens@.len() as int),
{
    match parse_expr(tokens, i) {
        Ok((e, j)) => Ok((Statement::Gosub(e), j)),
        Err(x) => Err(x),
    }
}

fn parse_if(tokens: &[Token], i: usize) -> (r: Result<(Statement, usize), ParserError>)
    requires
        i <= tokens@.len(),
    ensures
        statement_result(r) == if_spec(tokens@, i as int),
        advances(r, i as int, tokens@.len() as int),
    decreases tokens@.len() - i, 0int,
{
    let (left, j) = match parse_expr(tokens, i) {
        Ok(p) => p,
        Err(x) => return Err(x),
    };
    let (relop, k) = match parse_relop(tokens, j) {
        Ok(p) => p,
        Err(x) => return Err(x),
    };
    let (right, m) = match parse_expr(tokens, k) {
        Ok(p) => p,
        Err(x) => return Err(x),
    };
    if m < tokens.len() {
        if let Token::Then = &tokens[m] {
            return match parse_statement(tokens, m + 1) {
                Ok((s, n)) => Ok((Statement::If(left, relop, right, Box::new(s)), n)),
                Err(x) => Err(x),
            };
        }
    }
    Err(ParserError::InvalidIf)
}

fn parse_statement(tokens: &[Token], i: usize) -> (r: Result<(Statement, usize), ParserError>)
    requires
        i <= tokens@.len(),
    ensures
        statement_result(r) == statement_spec(tokens@, i as int),
        advances(r, i as int, tokens@.len() as int),
    decreases tokens@.len() - i, 1int,
{
    if i >= tokens.len() {
        return Err(ParserError::EmptyStatement);
    }
    match &tokens[i] {
        Token::Print => parse_print(tokens, i + 1),
        Token::If => parse_if(tokens, i + 1),
        Token::Goto => parse_goto(tokens, i + 1),
        Token::Input => parse_input(tokens, i + 1),
        Token::Let => parse_let(tokens, i + 1),
        Token::Gosub => parse_gosub(tokens, i + 1),
        Token::Return => Ok((Statement::Return, i + 1)),
        Token::Clear => Ok((Statement::Clear, i + 1)),
        Token::List => Ok((Statement::List, i + 1)),
        Token::Run => Ok((Statement::Run, i + 1)),
        Token::End => Ok((Statement::End, i + 1)),
        Token::CarrigeReturn => Err(ParserError::EmptyStatement),
        _ => Err(ParserError::InvalidStatement),
    }
}

fn parse_line(tokens: &[Token], i: usize) -> (r: Result<(Line, usize), ParserError>)
    requires
        i <= tokens@.len(),
    ensures
        match r {
            Ok((l, j)) => line_spec(tokens@, i as int) == Ok::<(SLine, int), ParserError>((line_model(l), j as int)),
            Err(e) => line_spec(tokens@, i as int) == Err::<(SLine, int), ParserError>(e),
        },
        advances(r, i as int, tokens@.len() as int),
{
    if i < tokens.len() {
        if let Token::Number(n) = &tokens[i] {
            let number = match parse_u32(n.as_str()) {
                Some(x) => x,
                None => return Err(ParserError::InvalidLineNumber),
            };
            return match parse_statement(tokens, i + 1) {
                Ok((s, j)) => Ok((Line(number, s), j)),
                Err(x) => Err(x),
            };
        }
        if let Token::RightParen = &tokens[i] {
            return Err(ParserError::MissingLeftParen);
        }
    }
    Err(ParserError::InvalidLine)
}

/// Parses a whole token sequence into its lines.
pub fn parse(input: Vec<Token>) -> (r: Result<Vec<Line>, ParserError>)
    ensures
        match r {
            Ok(lines) => parse_spec(input@) == Ok::<Seq<SLine>, ParserError>(lines_model(lines@)),
            Err(e) => parse_spec(input@) == Err::<Seq<SLine>, ParserError>(e),
        },
        r is Ok ==> strictly_increasing(lines_model(r->Ok_0@)),
{
    let tokens = input.as_slice();
    let mut output: Vec<Line> = Vec::new();
    let mut rest: usize = 0;
    proof {
        assert(lines_model(output@) =~= seq![]);
    }
    loop
        invariant
            rest <= tokens@.len(),
            tokens@ == input@,
            parse_spec(input@) == program_spec(tokens@, rest as int, lines_model(output@)),
            strictly_increasing(lines_model(output@)),
        decreases tokens@.len() - rest,
    {
        if rest >= tokens.len() {
            return Ok(output);
        }
        if let Token::CarrigeReturn = &tokens[rest] {
            rest = rest + 1;
        } else {
            let (line, j) = match parse_line(tokens, rest) {
                Ok(p) => p,
                Err(x) => return Err(x),
            };
            if output.len() > 0 && line.0 <= output[output.len() - 1].0 {
                return Err(ParserError::LineNumbersNotIncrementing);
            }
            let ghost before = output@;
            output.push(line);
            proof {
                assert(lines_model(output@) =~= lines_model(before).push(line_model(line)));
            }
            rest = j;
        }
    }
}

// ---------------------------------------------------------------------------
// Line-number order

pub open spec fn is_order_error<T>(r: Result<T, ParserError>) -> bool {
    match r {
        Err(ParserError::LineNumbersNotIncrementing) => true,
        _ => false,
    }
}

/// The lines read from position `i` on, up to the end of the input or to the
/// first line that does not parse, without comparing their numbers.
pub open spec fn lines_read(t: Seq<Token>, i: int) -> Seq<SLine>
    decreases t.len() - i,
{
    if i < 0 || i >= t.len() {
        seq![]
    } else if t[i] is CarrigeReturn {
        lines_read(t, i + 1)
    } else {
        match line_spec(t, i) {
            Ok((l, j)) => if i < j <= t.len() {
                seq![l] + lines_read(t, j)
            } else {
                seq![]
            },
            Err(_) => seq![],
        }
    }
}

pub open spec fn has_non_increasing_step(lines: Seq<SLine>) -> bool {
    exists|k: int| 0 < k < lines.len() && #[trigger] lines[k].number <= lines[k - 1].number
}

proof fn lemma_factor_no_order_error(t: Seq<Token>, i: int)
    ensures
        !is_order_error(factor_spec(t, i)),
    decreases t.len() - i, 0int,
{
    if 0 <= i < t.len() && t[i] is LeftParen {
        lemma_expr_no_order_error(t, i + 1);
    }
}

proof fn lemma_term_tail_no_order_error(t: Seq<Token>, i: int, acc: STerm)
    ensures
        !is_order_error(term_tail_spec(t, i, acc)),
    decreases t.len() - i, 1int,
{
    if 0 <= i < t.len() && (t[i] is Multiply || t[i] is Divide) {
        let op = if t[i] is Multiply {
            MultiplyDivide::Multiply
        } else {
            MultiplyDivide::Divide
        };
        lemma_factor_no_order_error(t, i + 1);
        if let Ok((f, j)) = factor_spec(t, i + 1) {
            if i < j <= t.len() {
                lemma_term_tail_no_order_error(t, j, acc.push((op, f)));
            }
        }
    }
}

proof fn lemma_term_no_order_error(t: Seq<Token>, i: int)
    ensures
        !is_order_error(term_spec(t, i)),
    decreases t.len() - i, 2int,
{
    if !(i < 0 || i >= t.len() || t[i] is CarrigeReturn) {
        lemma_factor_no_order_error(t, i);
        if let Ok((f, j)) = factor_spec(t, i) {
            if i < j <= t.len() {
                lemma_term_tail_no_order_error(t, j, seq![(MultiplyDivide::Multiply, f)]);
            }
        }
    }
}

proof fn lemma_expr_tail_no_order_error(t: Seq<Token>, i: int, acc: SExpr)
    ensures
        !is_order_error(expr_tail_spec(t, i, acc)),
    decreases t.len() - i, 3int,
{
    if 0 <= i < t.len() && (t[i] is Add || t[i] is Subtract) {
        let op = if t[i] is Add {
            AddSubtract::Add
        } else {
            AddSubtract::Subtract
        };
        lemma_term_no_order_error(t, i + 1);
        if let Ok((m, j)) = term_spec(t, i + 1) {
            if i < j <= t.len() {
                lemma_expr_tail_no_order_error(t, j, acc.push((op, m)));
            }
        }
    }
}

proof fn lemma_expr_no_order_error(t: Seq<Token>, i: int)
    ensures
        !is_order_error(expr_spec(t, i)),
    decreases t.len() - i, 4int,
{
    if !(i < 0 || i >= t.len() || t[i] is CarrigeReturn) {
        let op = if t[i] is Subtract {
            AddSubtract::Subtract
        } else {
            AddSubtract::Add
        };
        let k = if t[i] is Subtract || t[i] is Add {
            i + 1
        } else {
            i
        };
        lemma_term_no_order_error(t, k);
        if let Ok((m, j)) = term_spec(t, k) {
            if i < j <= t.len() {
                lemma_expr_tail_no_order_error(t, j, seq![(op, m)]);
            }
        }
    }
}

proof fn lemma_print_no_order_error(t: Seq<Token>, i: int, acc: Seq<SItem>)
    ensures
        !is_order_error(print_spec(t, i, acc)),
    decreases t.len() - i,
{
    if 0 <= i < t.len() && !(t[i] is CarrigeReturn) {
        lemma_expr_no_order_error(t, i);
        if let Ok((x, j)) = item_spec(t, i) {
            if i < j <= t.len() {
                lemma_print_no_order_error(t, j, acc.push(x));
            }
        }
    }
}

proof fn lemma_input_no_order_error(t: Seq<Token>, i: int, acc: Seq<char>)
    ensures
        !is_order_error(input_spec(t, i, acc)),
    decreases t.len() - i,
{
    if 0 <= i < t.len() {
        if let Token::Var(v) = t[i] {
            lemma_input_no_order_error(t, i + 1, acc.push(v));
        }
    }
}

proof fn lemma_if_no_order_error(t: Seq<Token>, i: int)
    ensures
        !is_order_error(if_spec(t, i)),
    decreases t.len() - i, 0int,
{
    lemma_expr_no_order_error(t, i);
    if let Ok((l, j)) = expr_spec(t, i) {
        if let Ok((r, k)) = relop_spec(t, j) {
            lemma_expr_no_order_error(t, k);
            if let Ok((rr, m)) = expr_spec(t, k) {
                if i <= m < t.len() && t[m] is Then {
                    lemma_statement_no_order_error(t, m + 1);
                }
            }
        }
    }
}

proof fn lemma_statement_no_order_error(t: Seq<Token>, i: int)
    ensures
        !is_order_error(statement_spec(t, i)),
    decreases t.len() - i, 1int,
{
    if 0 <= i < t.len() {
        match t[i] {
            Token::Print => lemma_print_no_order_error(t, i + 1, seq![]),
            Token::If => lemma_if_no_order_error(t, i + 1),
            Token::Input => lemma_input_no_order_error(t, i + 1, seq![]),
            Token::Goto | Token::Gosub => lemma_expr_no_order_error(t, i + 1),
            Token::Let => lemma_expr_no_order_error(t, i + 3),
            _ => {},
        }
    }
}

proof fn lemma_program_order_error(t: Seq<Token>, i: int, acc: Seq<SLine>)
    requires
        strictly_increasing(acc),
    ensures
        is_order_error(program_spec(t, i, acc)) <==> has_non_increasing_step(acc + lines_read(t, i)),
    decreases t.len() - i,
{
    if i < 0 || i >= t.len() {
        assert(acc + lines_read(t, i) =~= acc);
    } else if t[i] is CarrigeReturn {
        lemma_program_order_error(t, i + 1, acc);
    } else {
        if 0 <= i < t.len() && t[i] is Number {
            lemma_statement_no_order_error(t, i + 1);
        }
        match line_spec(t, i) {
            Ok((l, j)) => {
                if !(i < j <= t.len()) {
                    assert(acc + lines_read(t, i) =~= acc);
                } else if acc.len() > 0 && l.number <= acc.last().number {
                    let all = acc + lines_read(t, i);
                    assert(all[acc.len() as int] == l);
                    assert(all[acc.len() - 1] == acc.last());
                } else {
                    let next = acc.push(l);
                    assert(strictly_increasing(next));
                    lemma_program_order_error(t, j, next);
                    assert(next + lines_read(t, j) =~= acc + lines_read(t, i));
                }
            },
            Err(_) => {
                assert(acc + lines_read(t, i) =~= acc);
            },
        }
    }
}

/// Parsing fails with `LineNumbersNotIncrementing` exactly when, among the
/// lines read before the first syntax error (or to the end), some line number
/// is not greater than the one before it.
pub proof fn lemma_line_order(t: Seq<Token>)
    ensures
        (parse_spec(t) == Err::<Seq<SLine>, ParserError>(ParserError::LineNumbersNotIncrementing))
            <==> has_non_increasing_step(lines_read(t, 0)),
{
    lemma_program_order_error(t, 0, seq![]);
    assert(seq![] + lines_read(t, 0) =~= lines_read(t, 0));
}

proof fn lemma_program_reads_lines(t: Seq<Token>, i: int, acc: Seq<SLine>)
    ensures
        program_spec(t, i, acc) matches Ok(ls) ==> ls == acc + lines_read(t, i),
    decreases t.len() - i,
{
    if i < 0 || i >= t.len() {
        assert(acc + lines_read(t, i) =~= acc);
    } else if t[i] is CarrigeReturn {
        lemma_program_reads_lines(t, i + 1, acc);
    } else {
        match line_spec(t, i) {
            Ok((l, j)) => {
                if i < j <= t.len() {
                    lemma_program_reads_lines(t, j, acc.push(l));
                    assert(acc.push(l) + lines_read(t, j) =~= acc + lines_read(t, i));
                }
            },
            Err(_) => {},
        }
    }
}

/// A successful parse gives exactly the lines read, in order, and their
/// numbers strictly increase.
pub proof fn lemma_parse_gives_lines_read(t: Seq<Token>)
    ensures
        parse_spec(t) matches Ok(ls) ==> ls == lines_read(t, 0) && strictly_increasing(ls),
{
    lemma_program_reads_lines(t, 0, seq![]);
    assert(seq![] + lines_read(t, 0) =~= lines_read(t, 0));
    lemma_program_increasing(t, 0, seq![]);
}

proof fn lemma_program_increasing(t: Seq<Token>, i: int, acc: Seq<SLine>)
    requires
        strictly_increasing(acc),
    ensures
        program_spec(t, i, acc) matches Ok(ls) ==> strictly_increasing(ls),
    decreases t.len() - i,
{
    if 0 <= i < t.len() {
        if t[i] is CarrigeReturn {
            lemma_program_increasing(t, i + 1, acc);
        } else if let Ok((l, j)) = line_spec(t, i) {
            if i < j <= t.len() && !(acc.len() > 0 && l.number <= acc.last().number) {
                let next = acc.push(l);
                assert(strictly_increasing(next));
                lemma_program_increasing(t, j, next);
            }
        }
    }
}

} // verus!

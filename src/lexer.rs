//! Tokens of the dialect, and the lexer that produces them from source text.
use vstd::prelude::*;
use vstd::string::StrSliceExecFns;
use crate::text::{is_digit, is_letter};

verus! {

#[derive(Debug)]
pub enum Token {
    CarrigeReturn,
    Comma,
    LeftParen,
    RightParen,
    Add,
    Subtract,
    Multiply,
    Divide,
    Equals,
    NotEquals,
    GreaterThan,
    GreaterThanEquals,
    LessThan,
    LessThanEquals,
    Print,
    If,
    Then,
    Goto,
    Input,
    Let,
    Gosub,
    Return,
    Clear,
    List,
    Run,
    End,
    Var(char),
    Number(String),
    String(String),
}

#[derive(Debug, PartialEq, Eq)]
pub enum LexerError {
    UnknownToken(String),
    InvalidString,
}

// ---------------------------------------------------------------------------
// Mathematical model of tokens and of lexing

/// A token with its text payload, if any, as a character sequence.
pub enum TokenModel {
    Plain(Token),
    Number(Seq<char>),
    Str(Seq<char>),
}

pub enum LexFailure {
    UnknownToken(Seq<char>),
    InvalidString,
}

pub open spec fn token_model(t: Token) -> TokenModel {
    match t {
        Token::Number(s) => TokenModel::Number(s@),
        Token::String(s) => TokenModel::Str(s@),
        _ => TokenModel::Plain(t),
    }
}

pub open spec fn tokens_model(v: Seq<Token>) -> Seq<TokenModel> {
    v.map_values(|t: Token| token_model(t))
}

pub open spec fn lexer_error_model(e: LexerError) -> LexFailure {
    match e {
        LexerError::UnknownToken(s) => LexFailure::UnknownToken(s@),
        LexerError::InvalidString => LexFailure::InvalidString,
    }
}

/// The number of letters in the run that starts at `i`.
pub open spec fn letters_len(s: Seq<char>, i: int) -> nat
    decreases s.len() - i,
{
    if 0 <= i < s.len() && is_letter(s[i]) {
        1 + letters_len(s, i + 1)
    } else {
        0
    }
}

/// The number of digits in the run that starts at `i`.
pub open spec fn digits_len(s: Seq<char>, i: int) -> nat
    decreases s.len() - i,
{
    if 0 <= i < s.len() && is_digit(s[i]) {
        1 + digits_len(s, i + 1)
    } else {
        0
    }
}

/// The number of characters from `i` on before the next `"` or the end.
pub open spec fn unquoted_len(s: Seq<char>, i: int) -> nat
    decreases s.len() - i,
{
    if 0 <= i < s.len() && s[i] != '"' {
        1 + unquoted_len(s, i + 1)
    } else {
        0
    }
}

/// The token of a character that stands alone.
pub open spec fn single_token(c: char) -> Option<Token> {
    if c == '\n' {
        Some(Token::CarrigeReturn)
    } else if c == ',' {
        Some(Token::Comma)
    } else if c == '(' {
        Some(Token::LeftParen)
    } else if c == ')' {
        Some(Token::RightParen)
    } else if c == '+' {
        Some(Token::Add)
    } else if c == '-' {
        Some(Token::Subtract)
    } else if c == '*' {
        Some(Token::Multiply)
    } else if c == '/' {
        Some(Token::Divide)
    } else if c == '=' {
        Some(Token::Equals)
    } else {
        None
    }
}

pub open spec fn keyword(w: Seq<char>) -> Option<Token> {
    if w == "PRINT"@ {
        Some(Token::Print)
    } else if w == "IF"@ {
        Some(Token::If)
    } else if w == "THEN"@ {
        Some(Token::Then)
    } else if w == "GOTO"@ {
        Some(Token::Goto)
    } else if w == "INPUT"@ {
        Some(Token::Input)
    } else if w == "LET"@ {
        Some(Token::Let)
    } else if w == "GOSUB"@ {
        Some(Token::Gosub)
    } else if w == "RETURN"@ {
        Some(Token::Return)
    } else if w == "CLEAR"@ {
        Some(Token::Clear)
    } else if w == "LIST"@ {
        Some(Token::List)
    } else if w == "RUN"@ {
        Some(Token::Run)
    } else if w == "END"@ {
        Some(Token::End)
    } else {
        None
    }
}

/// The tokens of `s` from position `i` on, appended to `acc`. Spaces and tabs
/// separate tokens; a run of letters is a keyword, or a variable when it is a
/// single letter; a run of digits is a number; a string runs to the next `"`.
pub open spec fn lex_spec(s: Seq<char>, i: int, acc: Seq<TokenModel>) -> Result<Seq<TokenModel>, LexFailure>
    decreases s.len() - i,
    via lex_spec_decreases
{
    if i < 0 || i >= s.len() {
        Ok(acc)
    } else {
        let c = s[i];
        let next_is = |d: char| i + 1 < s.len() && s[i + 1] == d;
        if c == ' ' || c == '\t' {
            lex_spec(s, i + 1, acc)
        } else if single_token(c) is Some {
            lex_spec(s, i + 1, acc.push(TokenModel::Plain(single_token(c)->0)))
        } else if c == '<' && next_is('>') {
            lex_spec(s, i + 2, acc.push(TokenModel::Plain(Token::NotEquals)))
        } else if c == '<' && next_is('=') {
            lex_spec(s, i + 2, acc.push(TokenModel::Plain(Token::LessThanEquals)))
        } else if c == '<' {
            lex_spec(s, i + 1, acc.push(TokenModel::Plain(Token::LessThan)))
        } else if c == '>' && next_is('=') {
            lex_spec(s, i + 2, acc.push(TokenModel::Plain(Token::GreaterThanEquals)))
        } else if c == '>' {
            lex_spec(s, i + 1, acc.push(TokenModel::Plain(Token::GreaterThan)))
        } else if is_letter(c) {
            let j = i + 1 + letters_len(s, i + 1);
            let w = s.subrange(i, j);
            match keyword(w) {
                Some(k) => lex_spec(s, j, acc.push(TokenModel::Plain(k))),
                None => if w.len() == 1 {
                    lex_spec(s, j, acc.push(TokenModel::Plain(Token::Var(c))))
                } else {
                    Err(LexFailure::UnknownToken(w))
                },
            }
        } else if is_digit(c) {
            let j = i + 1 + digits_len(s, i + 1);
            lex_spec(s, j, acc.push(TokenModel::Number(s.subrange(i, j))))
        } else if c == '"' {
            let k = i + 1 + unquoted_len(s, i + 1);
            if k < s.len() {
                lex_spec(s, k + 1, acc.push(TokenModel::Str(s.subrange(i + 1, k))))
            } else {
                Err(LexFailure::InvalidString)
            }
        } else {
            Err(LexFailure::UnknownToken(seq![c]))
        }
    }
}

pub(crate) proof fn lemma_runs_in_bounds(s: Seq<char>, i: int)
    requires
        0 <= i <= s.len(),
    ensures
        letters_len(s, i) <= s.len() - i,
        digits_len(s, i) <= s.len() - i,
        unquoted_len(s, i) <= s.len() - i,
    decreases s.len() - i,
{
    if i < s.len() {
        lemma_runs_in_bounds(s, i + 1);
    }
}

#[via_fn]
proof fn lex_spec_decreases(s: Seq<char>, i: int, acc: Seq<TokenModel>) {
    if 0 <= i < s.len() {
        lemma_runs_in_bounds(s, i + 1);
    }
}

// ---------------------------------------------------------------------------
// Lexing

fn is_letter_char(c: char) -> (r: bool)
    ensures
        r == is_letter(c),
{
    ('a' <= c && c <= 'z') || ('A' <= c && c <= 'Z')
}

fn is_digit_char(c: char) -> (r: bool)
    ensures
        r == is_digit(c),
{
    '0' <= c && c <= '9'
}

/// The end of the run of letters that starts at `i`.
fn split_identifier(input: &str, n: usize, i: usize) -> (j: usize)
    requires
        n == input@.len(),
        i <= n,
    ensures
        j == i + letters_len(input@, i as int),
        j <= n,
    decreases n - i,
{
    if i < n && is_letter_char(input.get_char(i)) {
        split_identifier(input, n, i + 1)
    } else {
        i
    }
}

/// The end of the run of digits that starts at `i`.
fn split_number(input: &str, n: usize, i: usize) -> (j: usize)
    requires
        n == input@.len(),
        i <= n,
    ensures
        j == i + digits_len(input@, i as int),
        j <= n,
    decreases n - i,
{
    if i < n && is_digit_char(input.get_char(i)) {
        split_number(input, n, i + 1)
    } else {
        i
    }
}

/// The position of the next `"` from `i` on, or the end.
fn split_string(input: &str, n: usize, i: usize) -> (j: usize)
    requires
        n == input@.len(),
        i <= n,
    ensures
        j == i + unquoted_len(input@, i as int),
        j <= n,
    decreases n - i,
{
    if i < n && input.get_char(i) != '"' {
        split_string(input, n, i + 1)
    } else {
        i
    }
}

/// Whether the characters from `start` to `end` spell `word`.
fn spells(input: &str, start: usize, end: usize, word: &str) -> (r: bool)
    requires
        start <= end <= input@.len(),
    ensures
        r == (input@.subrange(start as int, end as int) == word@),
{
    let len = word.unicode_len();
    if end - start != len {
        return false;
    }
    let mut k: usize = 0;
    while k < len
        invariant
            k <= len,
            len == word@.len(),
            end - start == len,
            start <= end <= input@.len(),
            forall|m: int| 0 <= m < k ==> input@[start + m] == word@[m],
        decreases len - k,
    {
        if input.get_char(start + k) != word.get_char(k) {
            assert(input@.subrange(start as int, end as int)[k as int] != word@[k as int]);
            return false;
        }
        k = k + 1;
    }
    assert(input@.subrange(start as int, end as int) =~= word@);
    true
}

fn keyword_token(input: &str, start: usize, end: usize) -> (r: Option<Token>)
    requires
        start <= end <= input@.len(),
    ensures
        r == keyword(input@.subrange(start as int, end as int)),
{
    if spells(input, start, end, "PRINT") {
        Some(Token::Print)
    } else if spells(input, start, end, "IF") {
        Some(Token::If)
    } else if spells(input, start, end, "THEN") {
        Some(Token::Then)
    } else if spells(input, start, end, "GOTO") {
        Some(Token::Goto)
    } else if spells(input, start, end, "INPUT") {
        Some(Token::Input)
    } else if spells(input, start, end, "LET") {
        Some(Token::Let)
    } else if spells(input, start, end, "GOSUB") {
        Some(Token::Gosub)
    } else if spells(input, start, end, "RETURN") {
        Some(Token::Return)
    } else if spells(input, start, end, "CLEAR") {
        Some(Token::Clear)
    } else if spells(input, start, end, "LIST") {
        Some(Token::List)
    } else if spells(input, start, end, "RUN") {
        Some(Token::Run)
    } else if spells(input, start, end, "END") {
        Some(Token::End)
    } else {
        None
    }
}

fn single_char_token(c: char) -> (r: Option<Token>)
    ensures
        r == single_token(c),
{
    if c == '\n' {
        Some(Token::CarrigeReturn)
    } else if c == ',' {
        Some(Token::Comma)
    } else if c == '(' {
        Some(Token::LeftParen)
    } else if c == ')' {
        Some(Token::RightParen)
    } else if c == '+' {
        Some(Token::Add)
    } else if c == '-' {
        Some(Token::Subtract)
    } else if c == '*' {
        Some(Token::Multiply)
    } else if c == '/' {
        Some(Token::Divide)
    } else if c == '=' {
        Some(Token::Equals)
    } else {
        None
    }
}

/// Splits source text into tokens.
pub fn lex(input: &str) -> (r: Result<Vec<Token>, LexerError>)
    ensures
        match r {
            Ok(v) => lex_spec(input@, 0, seq![]) == Ok::<Seq<TokenModel>, LexFailure>(tokens_model(v@)),
            Err(e) => lex_spec(input@, 0, seq![]) == Err::<Seq<TokenModel>, LexFailure>(lexer_error_model(e)),
        },
{
    let n = input.unicode_len();
    let mut output: Vec<Token> = Vec::new();
    let mut i: usize = 0;
    proof {
        assert(tokens_model(output@) =~= seq![]);
    }
    while i < n
        invariant
            i <= n,
            n == input@.len(),
            lex_spec(input@, 0, seq![]) == lex_spec(input@, i as int, tokens_model(output@)),
        decreases n - i,
    {
        let ghost before = output@;
        let ghost i0 = i as int;
        proof {
            lemma_runs_in_bounds(input@, i as int + 1);
        }
        let c = input.get_char(i);
        let next = if i + 1 < n {
            Some(input.get_char(i + 1))
        } else {
            None
        };
        let single = single_char_token(c);
        if c == ' ' || c == '\t' {
            i = i + 1;
        } else if single.is_some() {
            match single {
                Some(t) => output.push(t),
                None => {},
            }
            i = i + 1;
        } else if c == '<' && next == Some('>') {
            output.push(Token::NotEquals);
            i = i + 2;
        } else if c == '<' && next == Some('=') {
            output.push(Token::LessThanEquals);
            i = i + 2;
        } else if c == '<' {
            output.push(Token::LessThan);
            i = i + 1;
        } else if c == '>' && next == Some('=') {
            output.push(Token::GreaterThanEquals);
            i = i + 2;
        } else if c == '>' {
            output.push(Token::GreaterThan);
            i = i + 1;
        } else if is_letter_char(c) {
            let j = split_identifier(input, n, i + 1);
            match keyword_token(input, i, j) {
                Some(t) => output.push(t),
                None => {
                    if j - i == 1 {
                        output.push(Token::Var(c));
                    } else {
                        let w = input.substring_char(i, j).to_owned();
                        return Err(LexerError::UnknownToken(w));
                    }
                },
            }
            i = j;
        } else if is_digit_char(c) {
            let j = split_number(input, n, i + 1);
            output.push(Token::Number(input.substring_char(i, j).to_owned()));
            i = j;
        } else if c == '"' {
            let k = split_string(input, n, i + 1);
            if k >= n {
                return Err(LexerError::InvalidString);
            }
            output.push(Token::String(input.substring_char(i + 1, k).to_owned()));
            i = k + 1;
        } else {
            let w = input.substring_char(i, i + 1).to_owned();
            assert(w@ =~= seq![c]);
            return Err(LexerError::UnknownToken(w));
        }
        proof {
            if output@.len() == before.len() {
                assert(tokens_model(output@) =~= tokens_model(before));
            } else {
                assert(output@ =~= before.push(output@.last()));
                assert(tokens_model(output@) =~= tokens_model(before).push(token_model(output@.last())));
            }
            assert(lex_spec(input@, i0, tokens_model(before)) == lex_spec(input@, i as int, tokens_model(output@)));
        }
    }
    Ok(output)
}

} // verus!

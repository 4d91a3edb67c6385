//! Writing expressions back as tokens, and the law that parsing what was
//! written gives the same expression again.
use vstd::prelude::*;
use crate::lexer::{Token, TokenModel, token_model, tokens_model};
use crate::parser::{
    AddSubtract, MultiplyDivide, SExpr, SFactor, STerm, expr_spec, expr_tail_spec, factor_spec,
    term_spec, term_tail_spec,
};
use crate::text::{all_digits, decimal, digit_char, digits_value, is_digit, parse_u32_spec};

verus! {

broadcast use vstd::seq::group_seq_axioms;

pub open spec fn add_sub_token(op: AddSubtract) -> TokenModel {
    match op {
        AddSubtract::Add => TokenModel::Plain(Token::Add),
        AddSubtract::Subtract => TokenModel::Plain(Token::Subtract),
    }
}

pub open spec fn mul_div_token(op: MultiplyDivide) -> TokenModel {
    match op {
        MultiplyDivide::Multiply => TokenModel::Plain(Token::Multiply),
        MultiplyDivide::Divide => TokenModel::Plain(Token::Divide),
    }
}

/// A factor as tokens: a variable, a decimal numeral, or a parenthesised sum.
pub open spec fn factor_tokens(f: SFactor) -> Seq<TokenModel>
    decreases f,
{
    match f {
        SFactor::Var(v) => seq![TokenModel::Plain(Token::Var(v))],
        SFactor::Number(n) => seq![TokenModel::Number(decimal(n as nat))],
        SFactor::Expression(e) => seq![TokenModel::Plain(Token::LeftParen)] + expr_tokens(e) + seq![
            TokenModel::Plain(Token::RightParen),
        ],
    }
}

/// Factors, each after its operator.
pub open spec fn factors_tokens(fs: STerm) -> Seq<TokenModel>
    decreases fs,
{
    if fs.len() == 0 {
        seq![]
    } else {
        seq![mul_div_token(fs[0].0)] + factor_tokens(fs[0].1) + factors_tokens(fs.drop_first())
    }
}

/// A product: its first factor alone, then the others after their operators.
pub open spec fn term_tokens(t: STerm) -> Seq<TokenModel>
    decreases t,
{
    if t.len() == 0 {
        seq![]
    } else {
        factor_tokens(t[0].1) + factors_tokens(t.drop_first())
    }
}

/// Terms, each after its sign.
pub open spec fn terms_tokens(ts: SExpr) -> Seq<TokenModel>
    decreases ts,
{
    if ts.len() == 0 {
        seq![]
    } else {
        seq![add_sub_token(ts[0].0)] + term_tokens(ts[0].1) + terms_tokens(ts.drop_first())
    }
}

/// A sum: the first term with a `-` only when it is subtracted, then the
/// others after their signs.
pub open spec fn expr_tokens(e: SExpr) -> Seq<TokenModel>
    decreases e,
{
    if e.len() == 0 {
        seq![]
    } else {
        (if e[0].0 is Subtract {
            seq![TokenModel::Plain(Token::Subtract)]
        } else {
            seq![]
        }) + term_tokens(e[0].1) + terms_tokens(e.drop_first())
    }
}

/// The shape the parser gives: no empty sum or product, and the first factor
/// of every product marked `Multiply`.
pub open spec fn wf_factor(f: SFactor) -> bool
    decreases f,
{
    match f {
        SFactor::Expression(e) => wf_expr(e),
        _ => true,
    }
}

pub open spec fn wf_factors(fs: STerm) -> bool
    decreases fs,
{
    fs.len() == 0 || (wf_factor(fs[0].1) && wf_factors(fs.drop_first()))
}

pub open spec fn wf_term(t: STerm) -> bool
    decreases t,
{
    t.len() > 0 && t[0].0 is Multiply && wf_factor(t[0].1) && wf_factors(t.drop_first())
}

pub open spec fn wf_terms(ts: SExpr) -> bool
    decreases ts,
{
    ts.len() == 0 || (wf_term(ts[0].1) && wf_terms(ts.drop_first()))
}

pub open spec fn wf_expr(e: SExpr) -> bool
    decreases e,
{
    e.len() > 0 && wf_term(e[0].1) && wf_terms(e.drop_first())
}

/// The tokens of `t` from `i` on start with `m`.
pub open spec fn spells_at(t: Seq<Token>, i: int, m: Seq<TokenModel>) -> bool {
    &&& 0 <= i
    &&& i + m.len() <= t.len()
    &&& forall|k: int| 0 <= k < m.len() ==> token_model(t[i + k]) == #[trigger] m[k]
}

/// No operator stands at `p` that would continue a sum.
pub open spec fn ends_sum(t: Seq<Token>, p: int) -> bool {
    !(0 <= p < t.len() && (t[p] is Add || t[p] is Subtract || t[p] is Multiply || t[p] is Divide))
}

/// No operator stands at `p` that would continue a product.
pub open spec fn ends_product(t: Seq<Token>, p: int) -> bool {
    !(0 <= p < t.len() && (t[p] is Multiply || t[p] is Divide))
}

proof fn lemma_spells_split(t: Seq<Token>, i: int, a: Seq<TokenModel>, b: Seq<TokenModel>)
    requires
        spells_at(t, i, a + b),
    ensures
        spells_at(t, i, a),
        spells_at(t, i + a.len(), b),
{
    assert forall|k: int| 0 <= k < a.len() implies token_model(t[i + k]) == #[trigger] a[k] by {
        assert((a + b)[k] == a[k]);
    }
    assert forall|k: int| 0 <= k < b.len() implies token_model(t[i + a.len() + k]) == #[trigger] b[k] by {
        assert((a + b)[a.len() + k] == b[k]);
        assert(i + (a.len() + k) == i + a.len() + k);
    }
}

proof fn lemma_token_at(t: Seq<Token>, i: int, m: Seq<TokenModel>)
    requires
        spells_at(t, i, m),
        m.len() > 0,
    ensures
        token_model(t[i]) == m[0],
{
    assert(token_model(t[i + 0]) == m[0]);
}

proof fn lemma_digit_char(d: nat)
    requires
        d < 10,
    ensures
        is_digit(digit_char(d)),
        digit_char(d) as nat - '0' as nat == d,
{
}

proof fn lemma_decimal_digits(n: nat)
    ensures
        decimal(n).len() > 0,
        all_digits(decimal(n)),
        digits_value(decimal(n)) == n,
    decreases n,
{
    if n >= 10 {
        lemma_decimal_digits(n / 10);
        let s = decimal(n / 10);
        let d = decimal(n);
        assert(d == s.push(digit_char(n % 10)));
        assert(d.drop_last() =~= s);
        assert(n == (n / 10) * 10 + n % 10);
        lemma_digit_char(n % 10);
        assert(d.last() == digit_char(n % 10));
        assert(digits_value(d) == digits_value(s) * 10 + (n % 10));
        assert forall|k: int| 0 <= k < d.len() implies is_digit(#[trigger] d[k]) by {
            if k < s.len() {
                assert(d[k] == s[k]);
            }
        }
    } else {
        let d = decimal(n);
        lemma_digit_char(n);
        assert(d.drop_last() =~= Seq::<char>::empty());
        assert(digits_value(d.drop_last()) == 0);
    }
}

/// The numeral written for a number reads back as that number.
proof fn lemma_decimal_parses(n: u32)
    ensures
        parse_u32_spec(decimal(n as nat)) == Some(n),
{
    lemma_decimal_digits(n as nat);
    assert(is_digit(decimal(n as nat)[0]));
}

proof fn lemma_factor_tokens_nonempty(f: SFactor)
    ensures
        factor_tokens(f).len() > 0,
{
}

proof fn lemma_factor_round_trip(t: Seq<Token>, i: int, f: SFactor)
    requires
        wf_factor(f),
        spells_at(t, i, factor_tokens(f)),
    ensures
        factor_spec(t, i) == Ok::<(SFactor, int), crate::parser::ParserError>((f, i + factor_tokens(f).len())),
    decreases f,
{
    let m = factor_tokens(f);
    lemma_token_at(t, i, m);
    match f {
        SFactor::Var(v) => {},
        SFactor::Number(n) => {
            lemma_decimal_parses(n);
        },
        SFactor::Expression(e) => {
            let open = seq![TokenModel::Plain(Token::LeftParen)];
            let inner = expr_tokens(e);
            let close = seq![TokenModel::Plain(Token::RightParen)];
            lemma_spells_split(t, i, open + inner, close);
            lemma_spells_split(t, i, open, inner);
            lemma_token_at(t, i + 1 + inner.len(), close);
            lemma_expr_round_trip_at(t, i + 1, e);
        },
    }
}

proof fn lemma_factors_round_trip(t: Seq<Token>, i: int, acc: STerm, fs: STerm)
    requires
        wf_factors(fs),
        spells_at(t, i, factors_tokens(fs)),
        ends_product(t, i + factors_tokens(fs).len()),
    ensures
        term_tail_spec(t, i, acc) == Ok::<(STerm, int), crate::parser::ParserError>((acc + fs, i + factors_tokens(fs).len())),
    decreases fs,
{
    if fs.len() == 0 {
        assert(acc + fs =~= acc);
    } else {
        let op = seq![mul_div_token(fs[0].0)];
        let ft = factor_tokens(fs[0].1);
        let rest = factors_tokens(fs.drop_first());
        lemma_spells_split(t, i, op + ft, rest);
        lemma_spells_split(t, i, op, ft);
        lemma_token_at(t, i, op);
        lemma_factor_tokens_nonempty(fs[0].1);
        lemma_factor_round_trip(t, i + 1, fs[0].1);
        lemma_factors_round_trip(t, i + 1 + ft.len(), acc.push(fs[0]), fs.drop_first());
        assert(acc.push(fs[0]) + fs.drop_first() =~= acc + fs);
    }
}

proof fn lemma_term_round_trip(t: Seq<Token>, i: int, tm: STerm)
    requires
        wf_term(tm),
        spells_at(t, i, term_tokens(tm)),
        ends_product(t, i + term_tokens(tm).len()),
    ensures
        term_spec(t, i) == Ok::<(STerm, int), crate::parser::ParserError>((tm, i + term_tokens(tm).len())),
    decreases tm,
{
    let ft = factor_tokens(tm[0].1);
    let rest = factors_tokens(tm.drop_first());
    lemma_spells_split(t, i, ft, rest);
    lemma_factor_tokens_nonempty(tm[0].1);
    lemma_token_at(t, i, ft);
    lemma_factor_round_trip(t, i, tm[0].1);
    lemma_factors_round_trip(t, i + ft.len(), seq![(MultiplyDivide::Multiply, tm[0].1)], tm.drop_first());
    assert(seq![(MultiplyDivide::Multiply, tm[0].1)] + tm.drop_first() =~= tm);
}

proof fn lemma_terms_round_trip(t: Seq<Token>, i: int, acc: SExpr, ts: SExpr)
    requires
        wf_terms(ts),
        spells_at(t, i, terms_tokens(ts)),
        ends_sum(t, i + terms_tokens(ts).len()),
    ensures
        expr_tail_spec(t, i, acc) == Ok::<(SExpr, int), crate::parser::ParserError>((acc + ts, i + terms_tokens(ts).len())),
    decreases ts,
{
    if ts.len() == 0 {
        assert(acc + ts =~= acc);
    } else {
        let op = seq![add_sub_token(ts[0].0)];
        let mt = term_tokens(ts[0].1);
        let rest = terms_tokens(ts.drop_first());
        lemma_spells_split(t, i, op + mt, rest);
        lemma_spells_split(t, i, op, mt);
        lemma_token_at(t, i, op);
        if rest.len() > 0 {
            lemma_token_at(t, i + 1 + mt.len(), rest);
        }
        lemma_factor_tokens_nonempty(ts[0].1[0].1);
        lemma_term_round_trip(t, i + 1, ts[0].1);
        lemma_terms_round_trip(t, i + 1 + mt.len(), acc.push(ts[0]), ts.drop_first());
        assert(acc.push(ts[0]) + ts.drop_first() =~= acc + ts);
    }
}

proof fn lemma_expr_round_trip_at(t: Seq<Token>, i: int, e: SExpr)
    requires
        wf_expr(e),
        spells_at(t, i, expr_tokens(e)),
        ends_sum(t, i + expr_tokens(e).len()),
    ensures
        expr_spec(t, i) == Ok::<(SExpr, int), crate::parser::ParserError>((e, i + expr_tokens(e).len())),
    decreases e,
{
    let sign = if e[0].0 is Subtract {
        seq![TokenModel::Plain(Token::Subtract)]
    } else {
        seq![]
    };
    let mt = term_tokens(e[0].1);
    let rest = terms_tokens(e.drop_first());
    lemma_spells_split(t, i, sign + mt, rest);
    lemma_spells_split(t, i, sign, mt);
    lemma_factor_tokens_nonempty(e[0].1[0].1);
    lemma_token_at(t, i + sign.len(), mt);
    lemma_spells_split(t, i + sign.len(), factor_tokens(e[0].1[0].1), factors_tokens(e[0].1.drop_first()));
    lemma_token_at(t, i + sign.len(), factor_tokens(e[0].1[0].1));
    if sign.len() > 0 {
        lemma_token_at(t, i, sign);
    }
    if rest.len() > 0 {
        lemma_token_at(t, i + sign.len() + mt.len(), rest);
    }
    lemma_term_round_trip(t, i + sign.len(), e[0].1);
    lemma_terms_round_trip(t, i + sign.len() + mt.len(), seq![e[0]], e.drop_first());
    assert(seq![e[0]] + e.drop_first() =~= e);
}

proof fn lemma_wf_factors_push(fs: STerm, x: (MultiplyDivide, SFactor))
    requires
        wf_factors(fs),
        wf_factor(x.1),
    ensures
        wf_factors(fs.push(x)),
    decreases fs.len(),
{
    if fs.len() > 0 {
        lemma_wf_factors_push(fs.drop_first(), x);
        assert(fs.push(x).drop_first() =~= fs.drop_first().push(x));
        assert(fs.push(x)[0] == fs[0]);
    } else {
        assert(fs.push(x).drop_first() =~= Seq::<(MultiplyDivide, SFactor)>::empty());
        assert(wf_factors(fs.push(x).drop_first()));
    }
}

proof fn lemma_wf_terms_push(ts: SExpr, x: (AddSubtract, STerm))
    requires
        wf_terms(ts),
        wf_term(x.1),
    ensures
        wf_terms(ts.push(x)),
    decreases ts.len(),
{
    if ts.len() > 0 {
        lemma_wf_terms_push(ts.drop_first(), x);
        assert(ts.push(x).drop_first() =~= ts.drop_first().push(x));
        assert(ts.push(x)[0] == ts[0]);
    } else {
        assert(ts.push(x).drop_first() =~= Seq::<(AddSubtract, STerm)>::empty());
        assert(wf_terms(ts.push(x).drop_first()));
    }
}

proof fn lemma_wf_term_push(tm: STerm, x: (MultiplyDivide, SFactor))
    requires
        wf_term(tm),
        wf_factor(x.1),
    ensures
        wf_term(tm.push(x)),
{
    lemma_wf_factors_push(tm.drop_first(), x);
    assert(tm.push(x).drop_first() =~= tm.drop_first().push(x));
}

proof fn lemma_wf_expr_push(e: SExpr, x: (AddSubtract, STerm))
    requires
        wf_expr(e),
        wf_term(x.1),
    ensures
        wf_expr(e.push(x)),
{
    lemma_wf_terms_push(e.drop_first(), x);
    assert(e.push(x).drop_first() =~= e.drop_first().push(x));
}

proof fn lemma_factor_wf(t: Seq<Token>, i: int)
    ensures
        factor_spec(t, i) matches Ok((f, _)) ==> wf_factor(f),
    decreases t.len() - i, 0int,
{
    if 0 <= i < t.len() && t[i] is LeftParen {
        lemma_expr_wf(t, i + 1);
    }
}

proof fn lemma_term_tail_wf(t: Seq<Token>, i: int, acc: STerm)
    requires
        wf_term(acc),
    ensures
        term_tail_spec(t, i, acc) matches Ok((m, _)) ==> wf_term(m),
    decreases t.len() - i, 1int,
{
    if 0 <= i < t.len() && (t[i] is Multiply || t[i] is Divide) {
        let op = if t[i] is Multiply {
            MultiplyDivide::Multiply
        } else {
            MultiplyDivide::Divide
        };
        lemma_factor_wf(t, i + 1);
        if let Ok((f, j)) = factor_spec(t, i + 1) {
            if i < j <= t.len() {
                lemma_wf_term_push(acc, (op, f));
                lemma_term_tail_wf(t, j, acc.push((op, f)));
            }
        }
    }
}

proof fn lemma_term_wf(t: Seq<Token>, i: int)
    ensures
        term_spec(t, i) matches Ok((m, _)) ==> wf_term(m),
    decreases t.len() - i, 2int,
{
    if !(i < 0 || i >= t.len() || t[i] is CarrigeReturn) {
        lemma_factor_wf(t, i);
        if let Ok((f, j)) = factor_spec(t, i) {
            if i < j <= t.len() {
                let first = seq![(MultiplyDivide::Multiply, f)];
                assert(first.drop_first() =~= Seq::<(MultiplyDivide, SFactor)>::empty());
                lemma_term_tail_wf(t, j, first);
            }
        }
    }
}

proof fn lemma_expr_tail_wf(t: Seq<Token>, i: int, acc: SExpr)
    requires
        wf_expr(acc),
    ensures
        expr_tail_spec(t, i, acc) matches Ok((e, _)) ==> wf_expr(e),
    decreases t.len() - i, 3int,
{
    if 0 <= i < t.len() && (t[i] is Add || t[i] is Subtract) {
        let op = if t[i] is Add {
            AddSubtract::Add
        } else {
            AddSubtract::Subtract
        };
        lemma_term_wf(t, i + 1);
        if let Ok((m, j)) = term_spec(t, i + 1) {
            if i < j <= t.len() {
                lemma_wf_expr_push(acc, (op, m));
                lemma_expr_tail_wf(t, j, acc.push((op, m)));
            }
        }
    }
}

proof fn lemma_expr_wf(t: Seq<Token>, i: int)
    ensures
        expr_spec(t, i) matches Ok((e, _)) ==> wf_expr(e),
    decreases t.len() - i, 4int,
{
    if !(i < 0 || i >= t.len() || t[i] is CarrigeReturn) {
        let op = if t[i] is Subtract {
            AddSubtract::Subtract
        } else {
            AddSubtract::Add
        };
        let k = if t[i] is Subtract || t[i] is Add {
            i + 1
        } else {
            i
        };
        lemma_term_wf(t, k);
        if let Ok((m, j)) = term_spec(t, k) {
            if i < j <= t.len() {
                let first = seq![(op, m)];
                assert(first.drop_first() =~= Seq::<(AddSubtract, STerm)>::empty());
                lemma_expr_tail_wf(t, j, first);
            }
        }
    }
}

/// Round trip of expressions: an expression that the parser reads from any
/// tokens is well formed, and once written back as tokens (explicit
/// parentheses, decimal numerals, a sign on the first term only) it parses to
/// the very same expression, using up all of those tokens. Equal expressions
/// evaluate equally, so the written-back text evaluates as the text it was
/// read from.
pub proof fn lemma_expr_round_trip(t: Seq<Token>, i: int, written: Seq<Token>)
    requires
        expr_spec(t, i) is Ok,
        tokens_model(written) == expr_tokens(expr_spec(t, i)->Ok_0.0),
    ensures
        wf_expr(expr_spec(t, i)->Ok_0.0),
        expr_spec(written, 0) == Ok::<(SExpr, int), crate::parser::ParserError>(
            (expr_spec(t, i)->Ok_0.0, written.len() as int),
        ),
{
    let e = expr_spec(t, i)->Ok_0.0;
    lemma_expr_wf(t, i);
    let m = expr_tokens(e);
    assert(written.len() == m.len());
    assert forall|k: int| 0 <= k < m.len() implies token_model(written[0 + k]) == #[trigger] m[k] by {
        assert(tokens_model(written)[k] == token_model(written[k]));
    }
    lemma_expr_round_trip_at(written, 0, e);
}

} // verus!

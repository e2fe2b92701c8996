//! Expression trees, the grammar that builds them from tokens, and the
//! flattening of a sum into its terms.

use vstd::prelude::*;
use crate::token::{lemma_views_push, token_views, views, Decimal, DecimalModel, Lexeme, LexemeModel, Token, TokenModel};

verus! {

/// A named constant.
#[derive(Debug, Clone, Copy, PartialEq, Eq, Structural)]
pub enum Constant {
    Pi,
    E,
}

/// A binary operator.
#[derive(Debug, Clone, Copy, PartialEq, Eq, Structural)]
pub enum Op {
    Add,
    Sub,
    Mul,
    Div,
    Pow,
}

/// An expression tree; `Equation` stands only at the root of a parse.
#[derive(Debug)]
pub enum Expr {
    BinOp(Box<Expr>, Op, Box<Expr>),
    Num(Decimal),
    Var(char),
    Constant(Constant),
    Equation(Box<Expr>, Box<Expr>),
}

/// The mathematical content of an [`Expr`].
pub enum ExprModel {
    BinOp(Box<ExprModel>, Op, Box<ExprModel>),
    Num(DecimalModel),
    Var(char),
    Constant(Constant),
    Equation(Box<ExprModel>, Box<ExprModel>),
}

impl View for Expr {
    type V = ExprModel;

    open spec fn view(&self) -> ExprModel
        decreases self,
    {
        match self {
            Expr::BinOp(l, op, r) => ExprModel::BinOp(Box::new((**l)@), *op, Box::new((**r)@)),
            Expr::Num(d) => ExprModel::Num(d@),
            Expr::Var(c) => ExprModel::Var(*c),
            Expr::Constant(k) => ExprModel::Constant(*k),
            Expr::Equation(l, r) => ExprModel::Equation(Box::new((**l)@), Box::new((**r)@)),
        }
    }
}

/// The models of a sequence of expressions.
pub open spec fn expr_views(es: Seq<Expr>) -> Seq<ExprModel> {
    es.map_values(|e: Expr| e@)
}

pub proof fn lemma_expr_views_push(es: Seq<Expr>, e: Expr)
    ensures
        expr_views(es.push(e)) == expr_views(es).push(e@),
{
    assert(expr_views(es.push(e)) =~= expr_views(es).push(e@));
}

/// The whole number `d`, with a sign.
pub open spec fn small(negative: bool, d: u8) -> ExprModel {
    ExprModel::Num(DecimalModel { negative, whole: seq![d], fraction: seq![] })
}

/// `0 - e`: how a subtracted term is kept in a list of terms.
pub open spec fn negated(e: ExprModel) -> ExprModel {
    ExprModel::BinOp(Box::new(small(false, 0)), Op::Sub, Box::new(e))
}

/// The terms of a sum: `Add` nodes are unfolded left then right, each term of the
/// right side of a `Sub` node is kept as `0 - term`, and any other node is a term.
pub open spec fn terms_of(e: ExprModel) -> Seq<ExprModel>
    decreases e,
{
    match e {
        ExprModel::BinOp(l, op, r) => {
            if op == Op::Add {
                terms_of(*l) + terms_of(*r)
            } else if op == Op::Sub {
                terms_of(*l) + terms_of(*r).map_values(|x: ExprModel| negated(x))
            } else {
                seq![e]
            }
        },
        _ => seq![e],
    }
}

fn terms_into(expr: Expr, acc: &mut Vec<Expr>)
    ensures
        expr_views(final(acc)@) == expr_views(old(acc)@) + terms_of(expr@),
    decreases expr,
{
    let ghost e = expr@;
    match expr {
        Expr::BinOp(lhs, op, rhs) => {
            match op {
                Op::Add => {
                    terms_into(*lhs, acc);
                    terms_into(*rhs, acc);
                    assert(expr_views(acc@) =~= expr_views(old(acc)@) + terms_of(e));
                },
                Op::Sub => {
                    terms_into(*lhs, acc);
                    let ghost mid = acc@;
                    let mut right: Vec<Expr> = Vec::new();
                    terms_into(*rhs, &mut right);
                    let ghost rs = expr_views(right@);
                    let mut i: usize = 0;
                    let n = right.len();
                    while right.len() > 0
                        invariant
                            i + right.len() == n,
                            n == rs.len(),
                            expr_views(right@) == rs.subrange(i as int, n as int),
                            expr_views(acc@) == expr_views(mid) + rs.subrange(0, i as int).map_values(
                                |x: ExprModel| negated(x),
                            ),
                        decreases right.len(),
                    {
                        let ghost prev = right@;
                        assert(expr_views(prev)[0] == prev[0]@);
                        let first = right.remove(0);
                        assert(expr_views(right@) =~= expr_views(prev).subrange(1, prev.len() as int));
                        assert(first@ == rs[i as int]);
                        let ghost before = acc@;
                        let zero = Decimal::digit(false, 0);
                        let num = Expr::Num(zero);
                        assert(num@ == small(false, 0));
                        let item = Expr::BinOp(Box::new(num), Op::Sub, Box::new(first));
                        assert(item@ == negated(rs[i as int]));
                        acc.push(item);
                        proof {
                            lemma_expr_views_push(before, item);
                            assert(rs.subrange(0, i + 1).map_values(|x: ExprModel| negated(x))
                                =~= rs.subrange(0, i as int).map_values(|x: ExprModel| negated(x)).push(negated(rs[i as int])));
                            assert(expr_views(acc@) =~= expr_views(mid) + rs.subrange(0, i + 1).map_values(
                                |x: ExprModel| negated(x)));
                        }
                        i = i + 1;
                    }
                    assert(rs.subrange(0, n as int) =~= rs);
                    assert(expr_views(acc@) =~= expr_views(old(acc)@) + terms_of(e));
                },
                _ => {
                    let ghost before = acc@;
                    let item = Expr::BinOp(lhs, op, rhs);
                    acc.push(item);
                    proof {
                        lemma_expr_views_push(before, item);
                    }
                },
            }
        },
        _ => {
            let ghost before = acc@;
            acc.push(expr);
            proof {
                lemma_expr_views_push(before, expr);
            }
        },
    }
}

impl Expr {
    /// A copy of this tree.
    pub fn duplicate(&self) -> (r: Expr)
        ensures
            r@ == self@,
        decreases self,
    {
        match self {
            Expr::BinOp(l, op, r) => Expr::BinOp(Box::new(l.duplicate()), *op, Box::new(r.duplicate())),
            Expr::Num(d) => Expr::Num(d.duplicate()),
            Expr::Var(c) => Expr::Var(*c),
            Expr::Constant(k) => Expr::Constant(*k),
            Expr::Equation(l, r) => Expr::Equation(Box::new(l.duplicate()), Box::new(r.duplicate())),
        }
    }

    /// Flattens the additive structure of this expression into its terms.
    pub fn terms(self) -> (r: Vec<Expr>)
        ensures
            expr_views(r@) == terms_of(self@),
    {
        let mut acc: Vec<Expr> = Vec::new();
        let ghost e = self@;
        terms_into(self, &mut acc);
        assert(expr_views(acc@) =~= terms_of(e));
        acc
    }
}

/// What the parser wanted where it stopped.
#[derive(Debug, Clone, Copy, PartialEq, Eq, Structural)]
pub enum Expected {
    /// A number, a pronumeral, a constant or an opening parenthesis.
    Operand,
    /// A closing parenthesis.
    RParen,
    /// The equals sign.
    Equals,
    /// The end of the input.
    End,
}

/// The outcome of a grammar rule from a token position: the tree and the position
/// after it, or the position where it failed and what was wanted there.
pub type Parsed = Result<(ExprModel, int), (int, Expected)>;

/// `Atom := Number | Variable | NamedConstant | '(' Addition ')'`
pub open spec fn parse_atom(t: Seq<TokenModel>, p: int) -> Parsed
    decreases t.len() - p, 1int,
{
    if p < 0 || p >= t.len() {
        Err((p, Expected::Operand))
    } else {
        match t[p] {
            TokenModel::Number(d) => Ok((ExprModel::Num(d), p + 1)),
            TokenModel::Pronumeral(c) => Ok((ExprModel::Var(c), p + 1)),
            TokenModel::Pi => Ok((ExprModel::Constant(Constant::Pi), p + 1)),
            TokenModel::E => Ok((ExprModel::Constant(Constant::E), p + 1)),
            TokenModel::LParen => match parse_addition(t, p + 1) {
                Ok((e, q)) => if 0 <= q < t.len() && t[q] is RParen {
                    Ok((e, q + 1))
                } else {
                    Err((q, Expected::RParen))
                },
                Err(x) => Err(x),
            },
            _ => Err((p, Expected::Operand)),
        }
    }
}

/// The repeated `('^' Atom)*` part, folded to the left onto `e`.
pub open spec fn pow_tail(t: Seq<TokenModel>, e: ExprModel, q: int) -> (ExprModel, int)
    decreases t.len() - q, 2int,
{
    if 0 <= q < t.len() && t[q] is Pow {
        match parse_atom(t, q + 1) {
            Ok((r, q2)) => if q < q2 <= t.len() {
                pow_tail(t, ExprModel::BinOp(Box::new(e), Op::Pow, Box::new(r)), q2)
            } else {
                (e, q)
            },
            Err(_) => (e, q),
        }
    } else {
        (e, q)
    }
}

/// `Exponentiation := Atom ('^' Atom)*`
pub open spec fn parse_exponentiation(t: Seq<TokenModel>, p: int) -> Parsed
    decreases t.len() - p, 3int,
{
    match parse_atom(t, p) {
        Ok((e, q)) => if p < q <= t.len() {
            Ok(pow_tail(t, e, q))
        } else {
            Ok((e, q))
        },
        Err(x) => Err(x),
    }
}

/// The repeated `(('*' | '/' | nothing) Exponentiation)*` part, folded to the left onto `e`.
pub open spec fn mul_tail(t: Seq<TokenModel>, e: ExprModel, q: int) -> (ExprModel, int)
    decreases t.len() - q, 4int,
{
    let explicit = 0 <= q < t.len() && (t[q] is Mul || t[q] is Div);
    let op = if 0 <= q < t.len() && t[q] is Div {
        Op::Div
    } else {
        Op::Mul
    };
    let from = if explicit {
        q + 1
    } else {
        q
    };
    match parse_exponentiation(t, from) {
        Ok((r, q2)) => if q < q2 <= t.len() {
            mul_tail(t, ExprModel::BinOp(Box::new(e), op, Box::new(r)), q2)
        } else {
            (e, q)
        },
        Err(_) => (e, q),
    }
}

/// `Multiplication := '-'? Exponentiation (('*' | '/' | nothing) Exponentiation)*`,
/// where a leading minus multiplies the whole chain by `-1`.
pub open spec fn parse_multiplication(t: Seq<TokenModel>, p: int) -> Parsed
    decreases t.len() - p, 5int,
{
    let neg = 0 <= p < t.len() && t[p] is Sub;
    let from = if neg {
        p + 1
    } else {
        p
    };
    match parse_exponentiation(t, from) {
        Ok((e, q)) => {
            let (m, q2) = if from < q <= t.len() {
                mul_tail(t, e, q)
            } else {
                (e, q)
            };
            if neg {
                Ok((ExprModel::BinOp(Box::new(small(true, 1)), Op::Mul, Box::new(m)), q2))
            } else {
                Ok((m, q2))
            }
        },
        Err(x) => Err(x),
    }
}

/// The repeated `(('+' | '-') Multiplication)*` part, folded to the left onto `e`.
pub open spec fn add_tail(t: Seq<TokenModel>, e: ExprModel, q: int) -> (ExprModel, int)
    decreases t.len() - q, 6int,
{
    if 0 <= q < t.len() && (t[q] is Add || t[q] is Sub) {
        let op = if t[q] is Add {
            Op::Add
        } else {
            Op::Sub
        };
        match parse_multiplication(t, q + 1) {
            Ok((r, q2)) => if q < q2 <= t.len() {
                add_tail(t, ExprModel::BinOp(Box::new(e), op, Box::new(r)), q2)
            } else {
                (e, q)
            },
            Err(_) => (e, q),
        }
    } else {
        (e, q)
    }
}

/// `Addition := Multiplication (('+' | '-') Multiplication)*`
pub open spec fn parse_addition(t: Seq<TokenModel>, p: int) -> Parsed
    decreases t.len() - p, 7int,
{
    match parse_multiplication(t, p) {
        Ok((e, q)) => if p < q <= t.len() {
            Ok(add_tail(t, e, q))
        } else {
            Ok((e, q))
        },
        Err(x) => Err(x),
    }
}

/// `Equation := Addition '=' Addition`, which must take every token.
pub open spec fn parse_equation(t: Seq<TokenModel>) -> Result<ExprModel, (int, Expected)> {
    match parse_addition(t, 0) {
        Ok((l, q)) => if 0 <= q < t.len() && t[q] is Eq {
            match parse_addition(t, q + 1) {
                Ok((r, q2)) => if q2 == t.len() {
                    Ok(ExprModel::Equation(Box::new(l), Box::new(r)))
                } else {
                    Err((q2, Expected::End))
                },
                Err(x) => Err(x),
            }
        } else {
            Err((q, Expected::Equals))
        },
        Err(x) => Err(x),
    }
}

pub open spec fn agrees(r: Result<(Expr, usize), (usize, Expected)>, s: Parsed) -> bool {
    match r {
        Ok((e, q)) => s == Ok::<(ExprModel, int), (int, Expected)>((e@, q as int)),
        Err((k, x)) => s == Err::<(ExprModel, int), (int, Expected)>((k as int, x)),
    }
}

fn atom(ts: &Vec<Token>, p: usize) -> (r: Result<(Expr, usize), (usize, Expected)>)
    requires
        p <= ts.len(),
    ensures
        agrees(r, parse_atom(token_views(ts@), p as int)),
    decreases ts.len() - p, 1int,
{
    let ghost t = token_views(ts@);
    if p >= ts.len() {
        return Err((p, Expected::Operand));
    }
    assert(t[p as int] == ts@[p as int]@);
    match &ts[p] {
        Token::Number(d) => Ok((Expr::Num(d.duplicate()), p + 1)),
        Token::Pronumeral(c) => Ok((Expr::Var(*c), p + 1)),
        Token::Pi => Ok((Expr::Constant(Constant::Pi), p + 1)),
        Token::E => Ok((Expr::Constant(Constant::E), p + 1)),
        Token::LParen => match addition(ts, p + 1) {
            Ok((e, q)) => {
                if q < ts.len() && matches!(ts[q], Token::RParen) {
                    assert(t[q as int] == ts@[q as int]@);
                    Ok((e, q + 1))
                } else {
                    proof {
                        if q < ts.len() {
                            assert(t[q as int] == ts@[q as int]@);
                        }
                    }
                    Err((q, Expected::RParen))
                }
            },
            Err(x) => Err(x),
        },
        _ => Err((p, Expected::Operand)),
    }
}

fn pow_rest(ts: &Vec<Token>, e: Expr, q: usize) -> (r: (Expr, usize))
    requires
        q <= ts.len(),
    ensures
        (r.0@, r.1 as int) == pow_tail(token_views(ts@), e@, q as int),
        r.1 <= ts.len(),
    decreases ts.len() - q, 2int,
{
    let ghost t = token_views(ts@);
    if q < ts.len() && matches!(ts[q], Token::Pow) {
        assert(t[q as int] == ts@[q as int]@);
        match atom(ts, q + 1) {
            Ok((r, q2)) => {
                if q < q2 && q2 <= ts.len() {
                    pow_rest(ts, Expr::BinOp(Box::new(e), Op::Pow, Box::new(r)), q2)
                } else {
                    (e, q)
                }
            },
            Err(_) => (e, q),
        }
    } else {
        proof {
            if q < ts.len() {
                assert(t[q as int] == ts@[q as int]@);
            }
        }
        (e, q)
    }
}

fn exponentiation(ts: &Vec<Token>, p: usize) -> (r: Result<(Expr, usize), (usize, Expected)>)
    requires
        p <= ts.len(),
    ensures
        agrees(r, parse_exponentiation(token_views(ts@), p as int)),
        r is Ok ==> r->Ok_0.1 <= ts.len(),
    decreases ts.len() - p, 3int,
{
    match atom(ts, p) {
        Ok((e, q)) => {
            if p < q && q <= ts.len() {
                Ok(pow_rest(ts, e, q))
            } else {
                Ok((e, q))
            }
        },
        Err(x) => Err(x),
    }
}

fn mul_rest(ts: &Vec<Token>, e: Expr, q: usize) -> (r: (Expr, usize))
    requires
        q <= ts.len(),
    ensures
        (r.0@, r.1 as int) == mul_tail(token_views(ts@), e@, q as int),
        r.1 <= ts.len(),
    decreases ts.len() - q, 4int,
{
    let ghost t = token_views(ts@);
    proof {
        if q < ts.len() {
            assert(t[q as int] == ts@[q as int]@);
        }
    }
    let explicit = q < ts.len() && (matches!(ts[q], Token::Mul) || matches!(ts[q], Token::Div));
    let op = if q < ts.len() && matches!(ts[q], Token::Div) {
        Op::Div
    } else {
        Op::Mul
    };
    let from = if explicit {
        q + 1
    } else {
        q
    };
    match exponentiation(ts, from) {
        Ok((r, q2)) => {
            if q < q2 && q2 <= ts.len() {
                mul_rest(ts, Expr::BinOp(Box::new(e), op, Box::new(r)), q2)
            } else {
                (e, q)
            }
        },
        Err(_) => (e, q),
    }
}

fn multiplication(ts: &Vec<Token>, p: usize) -> (r: Result<(Expr, usize), (usize, Expected)>)
    requires
        p <= ts.len(),
    ensures
        agrees(r, parse_multiplication(token_views(ts@), p as int)),
        r is Ok ==> r->Ok_0.1 <= ts.len(),
    decreases ts.len() - p, 5int,
{
    let ghost t = token_views(ts@);
    proof {
        if p < ts.len() {
            assert(t[p as int] == ts@[p as int]@);
        }
    }
    let neg = p < ts.len() && matches!(ts[p], Token::Sub);
    let from = if neg {
        p + 1
    } else {
        p
    };
    match exponentiation(ts, from) {
        Ok((e, q)) => {
            let (m, q2) = if from < q && q <= ts.len() {
                mul_rest(ts, e, q)
            } else {
                (e, q)
            };
            if neg {
                let minus_one = Expr::Num(Decimal::digit(true, 1));
                assert(minus_one@ == small(true, 1));
                Ok((Expr::BinOp(Box::new(minus_one), Op::Mul, Box::new(m)), q2))
            } else {
                Ok((m, q2))
            }
        },
        Err(x) => Err(x),
    }
}

fn add_rest(ts: &Vec<Token>, e: Expr, q: usize) -> (r: (Expr, usize))
    requires
        q <= ts.len(),
    ensures
        (r.0@, r.1 as int) == add_tail(token_views(ts@), e@, q as int),
        r.1 <= ts.len(),
    decreases ts.len() - q, 6int,
{
    let ghost t = token_views(ts@);
    proof {
        if q < ts.len() {
            assert(t[q as int] == ts@[q as int]@);
        }
    }
    if q < ts.len() && (matches!(ts[q], Token::Add) || matches!(ts[q], Token::Sub)) {
        let op = if matches!(ts[q], Token::Add) {
            Op::Add
        } else {
            Op::Sub
        };
        match multiplication(ts, q + 1) {
            Ok((r, q2)) => {
                if q < q2 && q2 <= ts.len() {
                    add_rest(ts, Expr::BinOp(Box::new(e), op, Box::new(r)), q2)
                } else {
                    (e, q)
                }
            },
            Err(_) => (e, q),
        }
    } else {
        (e, q)
    }
}

fn addition(ts: &Vec<Token>, p: usize) -> (r: Result<(Expr, usize), (usize, Expected)>)
    requires
        p <= ts.len(),
    ensures
        agrees(r, parse_addition(token_views(ts@), p as int)),
        r is Ok ==> r->Ok_0.1 <= ts.len(),
    decreases ts.len() - p, 7int,
{
    match multiplication(ts, p) {
        Ok((e, q)) => {
            if p < q && q <= ts.len() {
                Ok(add_rest(ts, e, q))
            } else {
                Ok((e, q))
            }
        },
        Err(x) => Err(x),
    }
}

fn equation(ts: &Vec<Token>) -> (r: Result<Expr, (usize, Expected)>)
    ensures
        match r {
            Ok(e) => parse_equation(token_views(ts@)) == Ok::<ExprModel, (int, Expected)>(e@),
            Err((k, x)) => parse_equation(token_views(ts@)) == Err::<ExprModel, (int, Expected)>(
                (k as int, x),
            ),
        },
{
    let ghost t = token_views(ts@);
    match addition(ts, 0) {
        Ok((l, q)) => {
            proof {
                if q < ts.len() {
                    assert(t[q as int] == ts@[q as int]@);
                }
            }
            if q < ts.len() && matches!(ts[q], Token::Eq) {
                match addition(ts, q + 1) {
                    Ok((r, q2)) => {
                        if q2 == ts.len() {
                            Ok(Expr::Equation(Box::new(l), Box::new(r)))
                        } else {
                            Err((q2, Expected::End))
                        }
                    },
                    Err(x) => Err(x),
                }
            } else {
                Err((q, Expected::Equals))
            }
        },
        Err(x) => Err(x),
    }
}

/// A parse failure: the span of the token where the parse stopped (an empty span
/// at the end of the text where it ran out of tokens) and what was wanted there.
#[derive(Debug, Clone, Copy, PartialEq, Eq, Structural)]
pub struct ParseError {
    pub start: usize,
    pub end: usize,
    pub expected: Expected,
}

/// The lexemes that hold a token, in order: characters that start no token are dropped.
pub open spec fn present(ls: Seq<LexemeModel>) -> Seq<LexemeModel>
    decreases ls.len(),
{
    if ls.len() == 0 {
        seq![]
    } else {
        let p = present(ls.drop_last());
        if ls.last().token is Some {
            p.push(ls.last())
        } else {
            p
        }
    }
}

/// The tokens that the parser reads from a lexer's output.
pub open spec fn present_tokens(ls: Seq<LexemeModel>) -> Seq<TokenModel> {
    present(ls).map_values(|l: LexemeModel| l.token->0)
}

/// The span reported for a failure at token position `k`.
pub open spec fn error_span(ls: Seq<LexemeModel>, k: int) -> (nat, nat) {
    let ps = present(ls);
    if 0 <= k < ps.len() {
        (ps[k].start, ps[k].end)
    } else if ps.len() > 0 {
        (ps.last().end, ps.last().end)
    } else {
        (0, 0)
    }
}

/// Parses a lexer's output as one equation, skipping characters that start no token.
pub fn parse(lexemes: &Vec<Lexeme>) -> (r: Result<Expr, Vec<ParseError>>)
    ensures
        match parse_equation(present_tokens(views(lexemes@))) {
            Ok(m) => r is Ok && r->Ok_0@ == m,
            Err((k, x)) => r is Err && r->Err_0@.len() == 1 && r->Err_0@[0].expected == x && (
            r->Err_0@[0].start as nat, r->Err_0@[0].end as nat) == error_span(views(lexemes@), k),
        },
        r is Ok ==> r->Ok_0@ is Equation && crate::standardform::sides_well_formed(r->Ok_0@),
{
    let mut kept: Vec<Lexeme> = Vec::new();
    let mut ts: Vec<Token> = Vec::new();
    let mut i: usize = 0;
    while i < lexemes.len()
        invariant
            i <= lexemes.len(),
            views(kept@) == present(views(lexemes@.subrange(0, i as int))),
            token_views(ts@) == present_tokens(views(lexemes@.subrange(0, i as int))),
        decreases lexemes.len() - i,
    {
        let ghost before = views(lexemes@.subrange(0, i as int));
        let ghost after = views(lexemes@.subrange(0, i + 1));
        proof {
            assert(after =~= before.push(lexemes@[i as int]@));
            assert(after.drop_last() =~= before);
        }
        match &lexemes[i].token {
            Some(tok) => {
                let ghost k0 = kept@;
                let ghost t0 = ts@;
                let l = Lexeme { token: Some(tok.duplicate()), start: lexemes[i].start, end: lexemes[i].end };
                let t = tok.duplicate();
                kept.push(l);
                ts.push(t);
                proof {
                    lemma_views_push(k0, l);
                    assert(token_views(ts@) =~= token_views(t0).push(t@));
                    assert(present_tokens(after) =~= present_tokens(before).push(t@));
                }
            },
            None => {},
        }
        i = i + 1;
    }
    proof {
        assert(lexemes@.subrange(0, lexemes.len() as int) =~= lexemes@);
    }
    proof {
        crate::termlist::lemma_parse_gives_one_equation(token_views(ts@));
    }
    match equation(&ts) {
        Ok(e) => Ok(e),
        Err((k, x)) => {
            let (start, end) = if k < kept.len() {
                (kept[k].start, kept[k].end)
            } else if kept.len() > 0 {
                (kept[kept.len() - 1].end, kept[kept.len() - 1].end)
            } else {
                (0, 0)
            };
            proof {
                if k < kept.len() {
                    assert(views(kept@)[k as int] == kept@[k as int]@);
                } else if kept.len() > 0 {
                    assert(views(kept@)[kept.len() - 1] == kept@[kept.len() - 1]@);
                }
            }
            let mut errs: Vec<ParseError> = Vec::new();
            errs.push(ParseError { start, end, expected: x });
            Err(errs)
        },
    }
}

} // verus!

//! Terms: the reduction of one additive term of an expression to its numeric
//! part, the pronumerals it carries and the named constants it carries.

use vstd::prelude::*;
use crate::expr::{
    add_tail, mul_tail, parse_addition, parse_atom, parse_equation, parse_exponentiation,
    parse_multiplication, pow_tail, small, terms_of, Constant, Expr, ExprModel, Op,
};
use crate::token::TokenModel;
use crate::token::{copy_items, Decimal};

verus! {

/// One term of a sum. `coeff` is a tree of numbers and operators only; its value,
/// times the value of every constant in `constants`, is the term's weight.
#[derive(Debug)]
pub struct Term {
    pub coeff: Expr,
    pub pronumerals: Vec<char>,
    pub constants: Vec<Constant>,
}

pub struct TermModel {
    pub coeff: ExprModel,
    pub pronumerals: Seq<char>,
    pub constants: Seq<Constant>,
}

impl View for Term {
    type V = TermModel;

    open spec fn view(&self) -> TermModel {
        TermModel { coeff: self.coeff@, pronumerals: self.pronumerals@, constants: self.constants@ }
    }
}

/// A list of terms, standing for their sum.
#[derive(Debug)]
pub struct TermList {
    pub terms: Vec<Term>,
}

pub open spec fn term_views(ts: Seq<Term>) -> Seq<TermModel> {
    ts.map_values(|t: Term| t@)
}

/// Whether an `Equation` node stands anywhere in `e`.
pub open spec fn has_equation(e: ExprModel) -> bool
    decreases e,
{
    match e {
        ExprModel::BinOp(l, _, r) => has_equation(*l) || has_equation(*r),
        ExprModel::Equation(_, _) => true,
        _ => false,
    }
}

/// The numeric part of `e`: every pronumeral and constant becomes `1`.
pub open spec fn numeric(e: ExprModel) -> ExprModel
    decreases e,
{
    match e {
        ExprModel::BinOp(l, op, r) => ExprModel::BinOp(
            Box::new(numeric(*l)),
            op,
            Box::new(numeric(*r)),
        ),
        ExprModel::Num(d) => ExprModel::Num(d),
        _ => small(false, 1),
    }
}

/// The pronumerals of `e`, left to right.
pub open spec fn pronumerals_of(e: ExprModel) -> Seq<char>
    decreases e,
{
    match e {
        ExprModel::BinOp(l, _, r) => pronumerals_of(*l) + pronumerals_of(*r),
        ExprModel::Var(c) => seq![c],
        _ => seq![],
    }
}

/// The named constants of `e`, left to right.
pub open spec fn constants_of(e: ExprModel) -> Seq<Constant>
    decreases e,
{
    match e {
        ExprModel::BinOp(l, _, r) => constants_of(*l) + constants_of(*r),
        ExprModel::Constant(k) => seq![k],
        _ => seq![],
    }
}

/// The term that one expression reduces to.
pub open spec fn term_of(e: ExprModel) -> TermModel {
    TermModel { coeff: numeric(e), pronumerals: pronumerals_of(e), constants: constants_of(e) }
}

/// Whether a tree holds numbers and operators only.
pub open spec fn is_numeric(e: ExprModel) -> bool
    decreases e,
{
    match e {
        ExprModel::BinOp(l, _, r) => is_numeric(*l) && is_numeric(*r),
        ExprModel::Num(_) => true,
        _ => false,
    }
}

/// Whether a pronumeral stands in the base or the exponent of a power in `e`.
pub open spec fn powered(e: ExprModel) -> bool
    decreases e,
{
    match e {
        ExprModel::BinOp(l, op, r) => (op == Op::Pow && (pronumerals_of(*l).len() > 0
            || pronumerals_of(*r).len() > 0)) || powered(*l) || powered(*r),
        _ => false,
    }
}

/// Whether `e` holds a pronumeral.
pub fn has_pronumeral(e: &Expr) -> (r: bool)
    ensures
        r == (pronumerals_of(e@).len() > 0),
    decreases e,
{
    match e {
        Expr::BinOp(l, _, r) => has_pronumeral(l) || has_pronumeral(r),
        Expr::Var(_) => true,
        _ => false,
    }
}

/// Whether a pronumeral stands under a power in `e`.
pub fn has_powered_pronumeral(e: &Expr) -> (r: bool)
    ensures
        r == powered(e@),
    decreases e,
{
    match e {
        Expr::BinOp(l, op, r) => {
            (*op == Op::Pow && (has_pronumeral(l) || has_pronumeral(r))) || has_powered_pronumeral(l)
                || has_powered_pronumeral(r)
        },
        _ => false,
    }
}

/// Whether an `Equation` node stands anywhere in `e`.
pub fn contains_equation(e: &Expr) -> (r: bool)
    ensures
        r == has_equation(e@),
    decreases e,
{
    match e {
        Expr::BinOp(l, _, r) => contains_equation(l) || contains_equation(r),
        Expr::Equation(_, _) => true,
        _ => false,
    }
}

pub proof fn lemma_numeric_is_numeric(e: ExprModel)
    ensures
        is_numeric(numeric(e)),
    decreases e,
{
    match e {
        ExprModel::BinOp(l, _, r) => {
            lemma_numeric_is_numeric(*l);
            lemma_numeric_is_numeric(*r);
        },
        _ => {},
    }
}

fn reduce(expr: &Expr, pronumerals: &mut Vec<char>, constants: &mut Vec<Constant>) -> (r: Expr)
    requires
        !has_equation(expr@),
    ensures
        r@ == numeric(expr@),
        final(pronumerals)@ == old(pronumerals)@ + pronumerals_of(expr@),
        final(constants)@ == old(constants)@ + constants_of(expr@),
    decreases expr,
{
    match expr {
        Expr::BinOp(lhs, op, rhs) => {
            let l = reduce(lhs, pronumerals, constants);
            let r = reduce(rhs, pronumerals, constants);
            assert(pronumerals@ =~= old(pronumerals)@ + pronumerals_of(expr@));
            assert(constants@ =~= old(constants)@ + constants_of(expr@));
            Expr::BinOp(Box::new(l), *op, Box::new(r))
        },
        Expr::Num(d) => {
            assert(pronumerals@ =~= old(pronumerals)@ + pronumerals_of(expr@));
            assert(constants@ =~= old(constants)@ + constants_of(expr@));
            Expr::Num(d.duplicate())
        },
        Expr::Var(c) => {
            pronumerals.push(*c);
            assert(constants@ =~= old(constants)@ + constants_of(expr@));
            Expr::Num(Decimal::digit(false, 1))
        },
        Expr::Constant(k) => {
            constants.push(*k);
            assert(pronumerals@ =~= old(pronumerals)@ + pronumerals_of(expr@));
            Expr::Num(Decimal::digit(false, 1))
        },
        Expr::Equation(_, _) => {
            // excluded by the precondition
            proof {
                assert(false);
            }
            Expr::Num(Decimal::digit(false, 1))
        },
    }
}

impl Term {
    /// A copy of this term.
    pub fn duplicate(&self) -> (r: Term)
        ensures
            r@ == self@,
    {
        Term {
            coeff: self.coeff.duplicate(),
            pronumerals: copy_items(&self.pronumerals),
            constants: copy_items(&self.constants),
        }
    }

    /// Reduces one expression to a term.
    pub fn of_expr(expr: &Expr) -> (r: Term)
        requires
            !has_equation(expr@),
        ensures
            r@ == term_of(expr@),
            is_numeric(r.coeff@),
    {
        proof {
            lemma_numeric_is_numeric(expr@);
        }
        let mut pronumerals: Vec<char> = Vec::new();
        let mut constants: Vec<Constant> = Vec::new();
        let coeff = reduce(expr, &mut pronumerals, &mut constants);
        assert(pronumerals@ =~= pronumerals_of(expr@));
        assert(constants@ =~= constants_of(expr@));
        Term { coeff, pronumerals, constants }
    }
}

impl TermList {
    /// Reduces each expression of a list to a term, in order.
    pub fn simplify(terms: Vec<Expr>) -> (r: TermList)
        requires
            forall|i: int| 0 <= i < terms.len() ==> !has_equation(#[trigger] terms@[i]@),
        ensures
            term_views(r.terms@) == crate::expr::expr_views(terms@).map_values(
                |e: ExprModel| term_of(e),
            ),
    {
        let mut out: Vec<Term> = Vec::new();
        let mut i: usize = 0;
        while i < terms.len()
            invariant
                i <= terms.len(),
                forall|j: int| 0 <= j < terms.len() ==> !has_equation(#[trigger] terms@[j]@),
                term_views(out@) == crate::expr::expr_views(terms@.subrange(0, i as int)).map_values(
                    |e: ExprModel| term_of(e),
                ),
            decreases terms.len() - i,
        {
            let t = Term::of_expr(&terms[i]);
            let ghost before = out@;
            out.push(t);
            proof {
                assert(term_views(out@) =~= term_views(before).push(t@));
                assert(crate::expr::expr_views(terms@.subrange(0, i + 1)).map_values(
                    |e: ExprModel| term_of(e),
                ) =~= crate::expr::expr_views(terms@.subrange(0, i as int)).map_values(
                    |e: ExprModel| term_of(e),
                ).push(term_of(terms@[i as int]@)));
            }
            i = i + 1;
        }
        assert(terms@.subrange(0, terms.len() as int) =~= terms@);
        TermList { terms: out }
    }

    /// Flattens an expression into its terms and reduces each of them.
    pub fn from_expr(expr: Expr) -> (r: TermList)
        requires
            !has_equation(expr@),
        ensures
            term_views(r.terms@) == terms_of(expr@).map_values(|e: ExprModel| term_of(e)),
    {
        let ghost e = expr@;
        proof {
            lemma_terms_free(e);
        }
        let ts = expr.terms();
        proof {
            assert forall|i: int| 0 <= i < ts.len() implies !has_equation(#[trigger] ts@[i]@) by {
                assert(crate::expr::expr_views(ts@)[i] == ts@[i]@);
            }
        }
        TermList::simplify(ts)
    }
}

/// Flattening keeps a tree free of `Equation` nodes.
pub proof fn lemma_terms_free(e: ExprModel)
    requires
        !has_equation(e),
    ensures
        forall|i: int| 0 <= i < terms_of(e).len() ==> !has_equation(#[trigger] terms_of(e)[i]),
    decreases e,
{
    match e {
        ExprModel::BinOp(l, op, r) => {
            lemma_terms_free(*l);
            lemma_terms_free(*r);
            let a = terms_of(*l);
            let b = terms_of(*r);
            if op == Op::Add {
                assert forall|i: int| 0 <= i < terms_of(e).len() implies !has_equation(
                    #[trigger] terms_of(e)[i],
                ) by {
                    if i >= a.len() {
                        assert(terms_of(e)[i] == b[i - a.len()]);
                    } else {
                        assert(terms_of(e)[i] == a[i]);
                    }
                }
            } else if op == Op::Sub {
                assert forall|i: int| 0 <= i < terms_of(e).len() implies !has_equation(
                    #[trigger] terms_of(e)[i],
                ) by {
                    if i >= a.len() {
                        assert(terms_of(e)[i] == crate::expr::negated(b[i - a.len()]));
                        assert(!has_equation(b[i - a.len()]));
                        assert(!has_equation(small(false, 0)));
                        assert(!has_equation(crate::expr::negated(b[i - a.len()])));
                    } else {
                        assert(terms_of(e)[i] == a[i]);
                    }
                }
            } else {
                assert(terms_of(e) =~= seq![e]);
            }
        },
        _ => {},
    }
}

proof fn lemma_atom_free(t: Seq<TokenModel>, p: int)
    ensures
        parse_atom(t, p) is Ok ==> !has_equation(parse_atom(t, p)->Ok_0.0),
    decreases t.len() - p, 1int,
{
    if 0 <= p < t.len() && t[p] is LParen {
        lemma_addition_free(t, p + 1);
    }
}

proof fn lemma_pow_tail_free(t: Seq<TokenModel>, e: ExprModel, q: int)
    requires
        !has_equation(e),
    ensures
        !has_equation(pow_tail(t, e, q).0),
    decreases t.len() - q, 2int,
{
    if 0 <= q < t.len() && t[q] is Pow {
        lemma_atom_free(t, q + 1);
        match parse_atom(t, q + 1) {
            Ok((r, q2)) => if q < q2 <= t.len() {
                lemma_pow_tail_free(t, ExprModel::BinOp(Box::new(e), Op::Pow, Box::new(r)), q2);
            },
            Err(_) => {},
        }
    }
}

proof fn lemma_exponentiation_free(t: Seq<TokenModel>, p: int)
    ensures
        parse_exponentiation(t, p) is Ok ==> !has_equation(parse_exponentiation(t, p)->Ok_0.0),
    decreases t.len() - p, 3int,
{
    lemma_atom_free(t, p);
    match parse_atom(t, p) {
        Ok((e, q)) => if p < q <= t.len() {
            lemma_pow_tail_free(t, e, q);
        },
        Err(_) => {},
    }
}

proof fn lemma_mul_tail_free(t: Seq<TokenModel>, e: ExprModel, q: int)
    requires
        !has_equation(e),
    ensures
        !has_equation(mul_tail(t, e, q).0),
    decreases t.len() - q, 4int,
{
    let explicit = 0 <= q < t.len() && (t[q] is Mul || t[q] is Div);
    let op = if 0 <= q < t.len() && t[q] is Div {
        Op::Div
    } else {
        Op::Mul
    };
    let from = if explicit {
        q + 1
    } else {
        q
    };
    lemma_exponentiation_free(t, from);
    match parse_exponentiation(t, from) {
        Ok((r, q2)) => if q < q2 <= t.len() {
            lemma_mul_tail_free(t, ExprModel::BinOp(Box::new(e), op, Box::new(r)), q2);
        },
        Err(_) => {},
    }
}

proof fn lemma_multiplication_free(t: Seq<TokenModel>, p: int)
    ensures
        parse_multiplication(t, p) is Ok ==> !has_equation(parse_multiplication(t, p)->Ok_0.0),
    decreases t.len() - p, 5int,
{
    let neg = 0 <= p < t.len() && t[p] is Sub;
    let from = if neg {
        p + 1
    } else {
        p
    };
    lemma_exponentiation_free(t, from);
    assert(!has_equation(small(true, 1)));
    match parse_exponentiation(t, from) {
        Ok((e, q)) => if from < q <= t.len() {
            lemma_mul_tail_free(t, e, q);
        },
        Err(_) => {},
    }
}

proof fn lemma_add_tail_free(t: Seq<TokenModel>, e: ExprModel, q: int)
    requires
        !has_equation(e),
    ensures
        !has_equation(add_tail(t, e, q).0),
    decreases t.len() - q, 6int,
{
    if 0 <= q < t.len() && (t[q] is Add || t[q] is Sub) {
        let op = if t[q] is Add {
            Op::Add
        } else {
            Op::Sub
        };
        lemma_multiplication_free(t, q + 1);
        match parse_multiplication(t, q + 1) {
            Ok((r, q2)) => if q < q2 <= t.len() {
                lemma_add_tail_free(t, ExprModel::BinOp(Box::new(e), op, Box::new(r)), q2);
            },
            Err(_) => {},
        }
    }
}

proof fn lemma_addition_free(t: Seq<TokenModel>, p: int)
    ensures
        parse_addition(t, p) is Ok ==> !has_equation(parse_addition(t, p)->Ok_0.0),
    decreases t.len() - p, 7int,
{
    lemma_multiplication_free(t, p);
    match parse_multiplication(t, p) {
        Ok((e, q)) => if p < q <= t.len() {
            lemma_add_tail_free(t, e, q);
        },
        Err(_) => {},
    }
}

/// Every successful parse is one `Equation` node at the root, and neither of
/// its sides holds another.
pub proof fn lemma_parse_gives_one_equation(t: Seq<TokenModel>)
    ensures
        parse_equation(t) is Ok ==> match parse_equation(t)->Ok_0 {
            ExprModel::Equation(l, r) => !has_equation(*l) && !has_equation(*r),
            _ => false,
        },
{
    lemma_addition_free(t, 0);
    match parse_addition(t, 0) {
        Ok((l, q)) => {
            if 0 <= q < t.len() {
                lemma_addition_free(t, q + 1);
            }
        },
        Err(_) => {},
    }
}

} // verus!

//! The equations entered so far, waiting for a command that uses them.

use vstd::prelude::*;
use crate::expr::{expr_views, terms_of, Expr, ExprModel};
use crate::matrix::MatrixForm;
use crate::solve::{first_failure, laid_out, reduces_each, solve_with_method, Error, Method};
use crate::standardform::sides_well_formed;
use crate::termlist::{term_of, term_views, TermList, TermModel};

verus! {

/// The pending equations, each one as the parser gives it.
#[derive(Debug)]
pub struct Session {
    pending: Vec<Expr>,
}

/// An equation whose sides hold no nested equation.
pub open spec fn is_entry(e: ExprModel) -> bool {
    e is Equation && sides_well_formed(e)
}

/// The terms of both sides of an equation.
pub open spec fn side_lists(e: ExprModel) -> (Seq<TermModel>, Seq<TermModel>) {
    match e {
        ExprModel::Equation(l, r) => (
            terms_of(*l).map_values(|x: ExprModel| term_of(x)),
            terms_of(*r).map_values(|x: ExprModel| term_of(x)),
        ),
        _ => (seq![], seq![]),
    }
}

impl Session {
    pub closed spec fn pending(&self) -> Seq<ExprModel> {
        expr_views(self.pending@)
    }

    pub closed spec fn wf(&self) -> bool {
        forall|i: int| 0 <= i < self.pending@.len() ==> is_entry(#[trigger] self.pending@[i]@)
    }

    pub fn new() -> (r: Session)
        ensures
            r.wf(),
            r.pending() == Seq::<ExprModel>::empty(),
    {
        let r = Session { pending: Vec::new() };
        assert(r.pending() =~= Seq::<ExprModel>::empty());
        r
    }

    /// Whether `e` can be added: an equation whose sides hold no nested one.
    pub fn can_add(e: &Expr) -> (r: bool)
        ensures
            r == is_entry(e@),
    {
        match e {
            Expr::Equation(l, r) => !crate::termlist::contains_equation(l)
                && !crate::termlist::contains_equation(r),
            _ => false,
        }
    }

    /// Adds an equation to the pending ones.
    pub fn add(&mut self, e: Expr)
        requires
            old(self).wf(),
            is_entry(e@),
        ensures
            final(self).wf(),
            final(self).pending() == old(self).pending().push(e@),
    {
        let ghost before = self.pending@;
        self.pending.push(e);
        proof {
            crate::expr::lemma_expr_views_push(before, self.pending@.last());
        }
    }

    /// The number of pending equations.
    pub fn len(&self) -> (r: usize)
        ensures
            r == self.pending().len(),
    {
        self.pending.len()
    }

    /// Solves the pending equations by `method` and clears them. With none
    /// pending, this is the no-equations error.
    pub fn solve(&mut self, method: Method) -> (r: Result<MatrixForm, Error>)
        requires
            old(self).wf(),
            method == Method::Matrix,
        ensures
            final(self).wf(),
            final(self).pending().len() == 0,
            old(self).pending().len() == 0 ==> r == Err::<MatrixForm, Error>(
                Error::StandardFormToMatrixFormConversionFail(crate::matrix::Error::NoEquations),
            ),
            match first_failure(old(self).pending()) {
                Some(x) => r == Err::<MatrixForm, Error>(Error::ExprToStandardFormConversionFail(x)),
                None => exists|sfs: Seq<crate::standardform::StandardForm>|
                    reduces_each(sfs, old(self).pending()) && #[trigger] laid_out(sfs, r),
            },
    {
        let exprs = self.pending.split_off(0);
        assert(exprs@ =~= old(self).pending@);
        assert(self.pending() =~= Seq::<ExprModel>::empty());
        proof {
            assert forall|i: int| 0 <= i < exprs.len() implies sides_well_formed(
                #[trigger] exprs@[i]@,
            ) by {
                assert(is_entry(exprs@[i]@));
            };
            if exprs.len() == 0 {
                assert(expr_views(exprs@) =~= Seq::<ExprModel>::empty());
                assert(laid_out(
                    Seq::<crate::standardform::StandardForm>::empty(),
                    Err(Error::StandardFormToMatrixFormConversionFail(crate::matrix::Error::NoEquations)),
                ));
            }
        }
        solve_with_method(exprs, method)
    }

    /// The terms of both sides of each pending equation, in order; the pending
    /// equations are cleared. With none pending, `None`.
    pub fn terms(&mut self) -> (r: Option<Vec<(TermList, TermList)>>)
        requires
            old(self).wf(),
        ensures
            final(self).wf(),
            old(self).pending().len() == 0 ==> r is None && final(self).pending() == old(self).pending(),
            old(self).pending().len() > 0 ==> final(self).pending().len() == 0 && r is Some && r->Some_0@.len()
                == old(self).pending().len() && forall|i: int|
                0 <= i < old(self).pending().len() ==> (
                term_views((#[trigger] r->Some_0@[i]).0.terms@),
                term_views(r->Some_0@[i].1.terms@),
            ) == side_lists(old(self).pending()[i]),
    {
        if self.pending.len() == 0 {
            return None;
        }
        let mut rest = self.pending.split_off(0);
        assert(rest@ =~= old(self).pending@);
        assert(self.pending() =~= Seq::<ExprModel>::empty());
        let ghost es = expr_views(rest@);
        let n = rest.len();
        let mut out: Vec<(TermList, TermList)> = Vec::new();
        let mut i: usize = 0;
        while rest.len() > 0
            invariant
                i + rest.len() == n,
                n == es.len(),
                expr_views(rest@) == es.subrange(i as int, n as int),
                forall|k: int| 0 <= k < rest.len() ==> is_entry(#[trigger] rest@[k]@),
                out@.len() == i,
                forall|k: int|
                    0 <= k < i ==> (
                        term_views((#[trigger] out@[k]).0.terms@),
                        term_views(out@[k].1.terms@),
                    ) == side_lists(es[k]),
            decreases rest.len(),
        {
            let ghost prev = rest@;
            assert(expr_views(prev)[0] == prev[0]@);
            let e = rest.remove(0);
            assert(expr_views(rest@) =~= expr_views(prev).subrange(1, prev.len() as int));
            assert forall|k: int| 0 <= k < rest.len() implies is_entry(#[trigger] rest@[k]@) by {
                assert(rest@[k] == prev[k + 1]);
            };
            assert(is_entry(e@));
            let ghost em = e@;
            match e {
                Expr::Equation(l, r) => {
                    let lt = TermList::from_expr(*l);
                    let rt = TermList::from_expr(*r);
                    let ghost before = out@;
                    out.push((lt, rt));
                    proof {
                        assert forall|k: int| 0 <= k < i + 1 implies (
                            term_views((#[trigger] out@[k]).0.terms@),
                            term_views(out@[k].1.terms@),
                        ) == side_lists(es[k]) by {
                            if k < i {
                                assert(out@[k] == before[k]);
                            } else {
                                assert(es[k] == em);
                            }
                        };
                    }
                },
                _ => {
                    proof {
                        assert(false);
                    }
                },
            }
            i = i + 1;
        }
        Some(out)
    }
}

} // verus!

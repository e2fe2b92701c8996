//! The reduction of a batch of parsed equations to one square system.

use vstd::prelude::*;
use crate::expr::{Expr, ExprModel};
use crate::matrix::{matrix_result, MatrixForm};
use crate::standardform::{reduces_to, sides_well_formed, standard_form_of, StandardForm};

verus! {

#[derive(Debug, Clone, Copy, PartialEq, Eq, Structural)]
pub enum Error {
    /// An equation could not be put in standard form.
    ExprToStandardFormConversionFail(crate::standardform::Error),
    /// The equations in standard form do not make a square system.
    StandardFormToMatrixFormConversionFail(crate::matrix::Error),
}

impl Error {
    pub fn message(&self) -> (r: String)
        ensures
            match self {
                Error::ExprToStandardFormConversionFail(_) => r@
                    == "Failed to convert the equation from an expression to standard form."@,
                Error::StandardFormToMatrixFormConversionFail(_) => r@
                    == "Failed to convert the equation from standard form to matrix form."@,
            },
    {
        match self {
            Error::ExprToStandardFormConversionFail(_) => String::from_str(
                "Failed to convert the equation from an expression to standard form.",
            ),
            Error::StandardFormToMatrixFormConversionFail(_) => String::from_str(
                "Failed to convert the equation from standard form to matrix form.",
            ),
        }
    }
}

/// How a system is solved.
#[derive(Debug, Clone, Copy, PartialEq, Eq, Structural)]
pub enum Method {
    /// Through the matrix of coefficients.
    Matrix,
    /// By elimination; not available.
    General,
}

/// The error of the first equation, in order, that has no standard form.
pub open spec fn first_failure(es: Seq<ExprModel>) -> Option<crate::standardform::Error>
    decreases es.len(),
{
    if es.len() == 0 {
        None
    } else {
        match standard_form_of(es[0]) {
            Err(x) => Some(x),
            Ok(_) => first_failure(es.drop_first()),
        }
    }
}

/// Each of `sfs` is the standard form of the expression at its index.
pub open spec fn reduces_each(sfs: Seq<StandardForm>, es: Seq<ExprModel>) -> bool {
    &&& sfs.len() == es.len()
    &&& forall|i: int| 0 <= i < es.len() ==> reduces_to(#[trigger] sfs[i], es[i])
}

/// `r` is what laying out `sfs` gives, its error wrapped as a matrix-step error.
pub open spec fn laid_out(sfs: Seq<StandardForm>, r: Result<MatrixForm, Error>) -> bool {
    match r {
        Ok(m) => matrix_result(sfs, Ok(m)),
        Err(Error::StandardFormToMatrixFormConversionFail(x)) => matrix_result(sfs, Err(x)),
        Err(Error::ExprToStandardFormConversionFail(_)) => false,
    }
}

pub proof fn lemma_first_failure_push(es: Seq<ExprModel>, e: ExprModel)
    requires
        first_failure(es) is None,
    ensures
        first_failure(es.push(e)) == match standard_form_of(e) {
            Err(x) => Some(x),
            Ok(_) => None::<crate::standardform::Error>,
        },
    decreases es.len(),
{
    assert(es.push(e)[0] == if es.len() == 0 {
        e
    } else {
        es[0]
    });
    if es.len() == 0 {
        assert(es.push(e).drop_first() =~= Seq::<ExprModel>::empty());
        assert(first_failure(Seq::<ExprModel>::empty()) is None);
    } else {
        assert(es.push(e).drop_first() =~= es.drop_first().push(e));
        lemma_first_failure_push(es.drop_first(), e);
    }
}

/// Puts every equation in standard form, then lays the system out as a square
/// matrix, ready for the matrix method.
pub fn solve_with_method(exprs: Vec<Expr>, method: Method) -> (r: Result<MatrixForm, Error>)
    requires
        method == Method::Matrix,
        forall|i: int| 0 <= i < exprs.len() ==> sides_well_formed(#[trigger] exprs@[i]@),
    ensures
        match first_failure(crate::expr::expr_views(exprs@)) {
            Some(x) => r == Err::<MatrixForm, Error>(Error::ExprToStandardFormConversionFail(x)),
            None => exists|sfs: Seq<StandardForm>|
                reduces_each(sfs, crate::expr::expr_views(exprs@)) && #[trigger] laid_out(sfs, r),
        },
{
    let ghost es = crate::expr::expr_views(exprs@);
    let n = exprs.len();
    let mut rest = exprs;
    let mut forms: Vec<StandardForm> = Vec::new();
    let mut i: usize = 0;
    while rest.len() > 0
        invariant
            i + rest.len() == n,
            n == es.len(),
            es == crate::expr::expr_views(exprs@),
            crate::expr::expr_views(rest@) == es.subrange(i as int, n as int),
            forall|k: int| 0 <= k < rest.len() ==> sides_well_formed(#[trigger] rest@[k]@),
            first_failure(es.subrange(0, i as int)) is None,
            reduces_each(forms@, es.subrange(0, i as int)),
        decreases rest.len(),
    {
        let ghost prev = rest@;
        assert(crate::expr::expr_views(prev)[0] == prev[0]@);
        let e = rest.remove(0);
        assert(crate::expr::expr_views(rest@) =~= crate::expr::expr_views(prev).subrange(1, prev.len() as int));
        assert(crate::expr::expr_views(rest@) =~= es.subrange(i + 1, n as int));
        assert forall|k: int| 0 <= k < rest.len() implies sides_well_formed(#[trigger] rest@[k]@) by {
            assert(rest@[k] == prev[k + 1]);
        };
        assert(e@ == es[i as int]);
        proof {
            assert(es.subrange(0, i + 1) =~= es.subrange(0, i as int).push(es[i as int]));
            lemma_first_failure_push(es.subrange(0, i as int), es[i as int]);
        }
        match StandardForm::try_from(e) {
            Ok(sf) => {
                let ghost before = forms@;
                forms.push(sf);
                proof {
                    assert forall|k: int| 0 <= k < i + 1 implies reduces_to(
                        #[trigger] forms@[k],
                        es.subrange(0, i + 1)[k],
                    ) by {
                        if k < i {
                            assert(forms@[k] == before[k]);
                        }
                    };
                }
            },
            Err(x) => {
                proof {
                    assert(standard_form_of(es[i as int]) == Err::<(Seq<crate::termlist::TermModel>, crate::termlist::TermModel), crate::standardform::Error>(x));
                    assert(first_failure(es.subrange(0, i + 1)) == Some(x));
                    lemma_first_failure_prefix(es, i as int);
                    assert(first_failure(es) == Some(x));
                }
                return Err(Error::ExprToStandardFormConversionFail(x));
            },
        }
        i = i + 1;
    }
    assert(es.subrange(0, n as int) =~= es);
    let ghost sfs = forms@;
    match MatrixForm::try_from(forms) {
        Ok(m) => {
            let r: Result<MatrixForm, Error> = Ok(m);
            assert(laid_out(sfs, r));
            r
        },
        Err(x) => {
            let r: Result<MatrixForm, Error> = Err(Error::StandardFormToMatrixFormConversionFail(x));
            assert(laid_out(sfs, r));
            r
        },
    }
}

/// The first failure of a prefix is the first failure of the whole sequence.
pub proof fn lemma_first_failure_prefix(es: Seq<ExprModel>, i: int)
    requires
        0 <= i < es.len(),
        first_failure(es.subrange(0, i + 1)) is Some,
    ensures
        first_failure(es) == first_failure(es.subrange(0, i + 1)),
    decreases i,
{
    assert(es.subrange(0, i + 1)[0] == es[0]);
    if i == 0 {
        assert(es.subrange(0, 1).drop_first() =~= Seq::<ExprModel>::empty());
        assert(first_failure(Seq::<ExprModel>::empty()) is None);
    } else {
        match standard_form_of(es[0]) {
            Err(_) => {},
            Ok(_) => {
                assert(es.subrange(0, i + 1).drop_first() =~= es.drop_first().subrange(0, i));
                lemma_first_failure_prefix(es.drop_first(), i - 1);
            },
        }
    }
}

} // verus!

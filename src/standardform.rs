//! The reduction of an equation to standard form: one weight per distinct
//! pronumeral on the left, a bare constant on the right.

use vstd::prelude::*;
use crate::expr::{terms_of, Expr, ExprModel};
use crate::termlist::{has_equation, has_powered_pronumeral, powered, term_of, term_views, Term, TermList, TermModel};

verus! {

/// `c1*v1 + c2*v2 + ... = k`, with the pronumerals in increasing order. Each weight
/// is a term: its numeric part times its constants.
#[derive(Debug)]
pub struct StandardForm {
    pub terms: Vec<(char, Term)>,
    pub constant: Term,
}

#[derive(Debug, Clone, Copy, PartialEq, Eq, Structural)]
pub enum Error {
    /// The expression is not an equation.
    NotEquation,
    /// A pronumeral of the left side stands under a power, so the equation is not linear.
    PoweredPronumeral,
    /// The right side is not one term free of pronumerals.
    RightSideNotConstant,
    /// A term of the left side carries no pronumeral, or more than one.
    PronumeralCount,
    /// Two terms of the left side carry the same pronumeral.
    RepeatedPronumeral,
}

impl Error {
    pub fn message(&self) -> (r: String)
        ensures
            match self {
                Error::NotEquation => r@ == "Expected equation"@,
                Error::PoweredPronumeral => r@ == "A pronumeral stands under a power: the equation is not linear."@,
                Error::RightSideNotConstant => r@ == "The right side of the equation is not a constant."@,
                Error::PronumeralCount => r@ == "A term of the left side does not have exactly one pronumeral."@,
                Error::RepeatedPronumeral => r@ == "A pronumeral appears in more than one term of the left side."@,
            },
    {
        match self {
            Error::NotEquation => String::from_str("Expected equation"),
            Error::PoweredPronumeral => String::from_str("A pronumeral stands under a power: the equation is not linear."),
            Error::RightSideNotConstant => String::from_str("The right side of the equation is not a constant."),
            Error::PronumeralCount => String::from_str("A term of the left side does not have exactly one pronumeral."),
            Error::RepeatedPronumeral => String::from_str("A pronumeral appears in more than one term of the left side."),
        }
    }
}

/// Whether both sides of an equation are free of nested equations (which the
/// parser never produces).
pub open spec fn sides_well_formed(e: ExprModel) -> bool {
    match e {
        ExprModel::Equation(l, r) => !has_equation(*l) && !has_equation(*r),
        _ => true,
    }
}

/// The terms of one side of an equation.
pub open spec fn side_terms(e: ExprModel) -> Seq<TermModel> {
    terms_of(e).map_values(|x: ExprModel| term_of(x))
}

/// The pronumeral that a left-hand term stands for.
pub open spec fn key(t: TermModel) -> char {
    t.pronumerals[0]
}

/// Every term carries exactly one pronumeral, and no two carry the same one.
#[verifier::opaque]
pub open spec fn linear(lt: Seq<TermModel>) -> bool {
    &&& forall|i: int| 0 <= i < lt.len() ==> (#[trigger] lt[i]).pronumerals.len() == 1
    &&& forall|i: int, j: int|
        0 <= i < j < lt.len() ==> key(#[trigger] lt[i]) != key(#[trigger] lt[j])
}

/// No pronumeral stands under a power: `x^2` and `2^x` are not linear.
pub open spec fn no_powers(ts: Seq<ExprModel>) -> bool {
    forall|i: int| 0 <= i < ts.len() ==> !powered(#[trigger] ts[i])
}

/// The right side is one term with no pronumeral.
pub open spec fn bare_constant(rt: Seq<TermModel>) -> bool {
    rt.len() == 1 && rt[0].pronumerals.len() == 0
}

/// The first fault of the left terms, taken in order: a term whose count of
/// pronumerals is not one, or whose pronumeral an earlier term already carries.
pub open spec fn lhs_fault(lt: Seq<TermModel>) -> Option<Error>
    decreases lt.len(),
{
    if lt.len() == 0 {
        None
    } else {
        let p = lt.drop_last();
        match lhs_fault(p) {
            Some(x) => Some(x),
            None => if lt.last().pronumerals.len() != 1 {
                Some(Error::PronumeralCount)
            } else if exists|k: int| 0 <= k < p.len() && key(#[trigger] p[k]) == key(lt.last()) {
                Some(Error::RepeatedPronumeral)
            } else {
                None
            },
        }
    }
}

/// What reducing `e` gives. Faults are looked for in this order: a pronumeral
/// under a power on the left, a right side that is not a bare constant, then
/// the left terms one by one (see [`lhs_fault`]).
pub open spec fn standard_form_of(e: ExprModel) -> Result<(Seq<TermModel>, TermModel), Error> {
    match e {
        ExprModel::Equation(l, r) => {
            let lt = side_terms(*l);
            let rt = side_terms(*r);
            if !no_powers(terms_of(*l)) {
                Err(Error::PoweredPronumeral)
            } else if !bare_constant(rt) {
                Err(Error::RightSideNotConstant)
            } else {
                match lhs_fault(lt) {
                    Some(x) => Err(x),
                    None => Ok((lt, rt[0])),
                }
            }
        },
        _ => Err(Error::NotEquation),
    }
}

/// The left terms have no fault exactly when they are linear.
pub proof fn lemma_no_fault_is_linear(lt: Seq<TermModel>)
    ensures
        lhs_fault(lt) is None <==> linear(lt),
    decreases lt.len(),
{
    reveal(linear);
    if lt.len() > 0 {
        let p = lt.drop_last();
        lemma_no_fault_is_linear(p);
        let t = lt.last();
        let n = p.len() as int;
        if linear(lt) {
            assert(linear(p)) by {
                assert forall|i: int| 0 <= i < p.len() implies (#[trigger] p[i]).pronumerals.len() == 1 by {
                    assert(p[i] == lt[i]);
                };
                assert forall|i: int, j: int| 0 <= i < j < p.len() implies key(#[trigger] p[i]) != key(
                    #[trigger] p[j],
                ) by {
                    assert(p[i] == lt[i] && p[j] == lt[j]);
                };
            };
            assert(lt[n] == t);
            assert(t.pronumerals.len() == 1);
            assert(!exists|k: int| 0 <= k < p.len() && key(#[trigger] p[k]) == key(t)) by {
                assert forall|k: int| 0 <= k < p.len() implies key(#[trigger] p[k]) != key(t) by {
                    assert(p[k] == lt[k]);
                    assert(key(lt[k]) != key(lt[n]));
                };
            };
        }
        if lhs_fault(lt) is None {
            assert(linear(lt)) by {
                assert forall|i: int| 0 <= i < lt.len() implies (#[trigger] lt[i]).pronumerals.len() == 1 by {
                    if i < n {
                        assert(p[i] == lt[i]);
                    }
                };
                assert forall|i: int, j: int| 0 <= i < j < lt.len() implies key(#[trigger] lt[i]) != key(
                    #[trigger] lt[j],
                ) by {
                    assert(p[i] == lt[i]);
                    if j < n {
                        assert(p[j] == lt[j]);
                    } else {
                        assert(lt[j] == t);
                        assert(key(p[i]) != key(t));
                    }
                };
            };
        }
    }
}

/// Once a prefix of the left terms has a fault, the whole list has that fault.
pub proof fn lemma_fault_of_prefix(lt: Seq<TermModel>, m: int)
    requires
        0 <= m <= lt.len(),
        lhs_fault(lt.subrange(0, m)) is Some,
    ensures
        lhs_fault(lt) == lhs_fault(lt.subrange(0, m)),
    decreases lt.len(),
{
    if lt.len() == m {
        assert(lt.subrange(0, m) =~= lt);
    } else {
        let p = lt.drop_last();
        assert(p.subrange(0, m) =~= lt.subrange(0, m));
        lemma_fault_of_prefix(p, m);
    }
}

/// `sf` is the standard form of `e`: its entries are the left terms in order of
/// pronumeral, and its constant is the right term.
pub open spec fn reduces_to(sf: StandardForm, e: ExprModel) -> bool {
    match standard_form_of(e) {
        Ok((lt, c)) => sorted(entry_views(sf.terms@)) && holds_exactly(entry_views(sf.terms@), lt)
            && sf.constant@ == c,
        Err(_) => false,
    }
}

pub open spec fn before(a: char, b: char) -> bool {
    a < b
}

/// The entries are in strictly increasing order of pronumeral.
#[verifier::opaque]
pub open spec fn sorted(es: Seq<(char, TermModel)>) -> bool {
    forall|a: int, b: int| 0 <= a < b < es.len() ==> before(#[trigger] es[a].0, #[trigger] es[b].0)
}

/// The entries hold exactly the terms of `lt`, each under its pronumeral.
#[verifier::opaque]
pub open spec fn holds_exactly(es: Seq<(char, TermModel)>, lt: Seq<TermModel>) -> bool {
    &&& es.len() == lt.len()
    &&& forall|k: int| 0 <= k < lt.len() ==> #[trigger] has_entry(es, lt[k])
    &&& forall|j: int| 0 <= j < es.len() ==> #[trigger] has_term(lt, es[j])
}

/// Some entry holds `t` under its pronumeral.
pub open spec fn has_entry(es: Seq<(char, TermModel)>, t: TermModel) -> bool {
    exists|j: int| 0 <= j < es.len() && #[trigger] es[j] == (key(t), t)
}

/// Some term of `lt` is the entry `e`.
pub open spec fn has_term(lt: Seq<TermModel>, e: (char, TermModel)) -> bool {
    exists|k: int| 0 <= k < lt.len() && e == (key(#[trigger] lt[k]), lt[k])
}

pub open spec fn entry_views(es: Seq<(char, Term)>) -> Seq<(char, TermModel)> {
    es.map_values(|e: (char, Term)| (e.0, e.1@))
}

/// Inserting a term with a new pronumeral at its place keeps the entries sorted
/// and exact, and the list of terms linear.
pub proof fn lemma_insert_entry(es0: Seq<(char, TermModel)>, lt0: Seq<TermModel>, j: int, t: TermModel)
    requires
        sorted(es0),
        holds_exactly(es0, lt0),
        linear(lt0),
        0 <= j <= es0.len(),
        t.pronumerals.len() == 1,
        forall|a: int| 0 <= a < j ==> before(#[trigger] es0[a].0, key(t)),
        j < es0.len() ==> !before(es0[j].0, key(t)) && es0[j].0 != key(t),
    ensures
        sorted(es0.insert(j, (key(t), t))),
        holds_exactly(es0.insert(j, (key(t), t)), lt0.push(t)),
        linear(lt0.push(t)),
{
    lemma_new_key(es0, j, key(t));
    lemma_insert_sorted(es0, j, t);
    lemma_insert_linear(es0, lt0, t);
    lemma_insert_exact(es0, lt0, j, t);
}

proof fn lemma_new_key(es0: Seq<(char, TermModel)>, j: int, c: char)
    requires
        sorted(es0),
        0 <= j <= es0.len(),
        forall|a: int| 0 <= a < j ==> before(#[trigger] es0[a].0, c),
        j < es0.len() ==> !before(es0[j].0, c) && es0[j].0 != c,
    ensures
        forall|a: int| 0 <= a < es0.len() ==> #[trigger] es0[a].0 != c,
        forall|a: int| j <= a < es0.len() ==> before(c, #[trigger] es0[a].0),
{
    reveal(sorted);
    assert forall|a: int| j <= a < es0.len() implies before(c, #[trigger] es0[a].0) by {
        if a > j {
            assert(before(es0[j].0, es0[a].0));
        }
    };
}

proof fn lemma_insert_sorted(es0: Seq<(char, TermModel)>, j: int, t: TermModel)
    requires
        sorted(es0),
        0 <= j <= es0.len(),
        forall|a: int| 0 <= a < j ==> before(#[trigger] es0[a].0, key(t)),
        forall|a: int| j <= a < es0.len() ==> before(key(t), #[trigger] es0[a].0),
    ensures
        sorted(es0.insert(j, (key(t), t))),
{
    reveal(sorted);
    let es = es0.insert(j, (key(t), t));
    assert forall|a: int, b: int| 0 <= a < b < es.len() implies before(
        #[trigger] es[a].0,
        #[trigger] es[b].0,
    ) by {
        if b < j {
            assert(es[a] == es0[a] && es[b] == es0[b]);
        } else if b == j {
            assert(es[a] == es0[a]);
        } else if a < j {
            assert(es[a] == es0[a] && es[b] == es0[b - 1]);
        } else if a == j {
            assert(es[b] == es0[b - 1]);
        } else {
            assert(es[a] == es0[a - 1] && es[b] == es0[b - 1]);
        }
    };
}

proof fn lemma_insert_linear(es0: Seq<(char, TermModel)>, lt0: Seq<TermModel>, t: TermModel)
    requires
        holds_exactly(es0, lt0),
        linear(lt0),
        t.pronumerals.len() == 1,
        forall|a: int| 0 <= a < es0.len() ==> #[trigger] es0[a].0 != key(t),
    ensures
        linear(lt0.push(t)),
{
    reveal(linear);
    reveal(holds_exactly);
    let lt1 = lt0.push(t);
    let i = lt0.len() as int;
    assert forall|p: int, q: int| 0 <= p < q < lt1.len() implies key(#[trigger] lt1[p]) != key(
        #[trigger] lt1[q],
    ) by {
        if q == i {
            assert(lt1[p] == lt0[p]);
            assert(lt1[q] == t);
            assert(has_entry(es0, lt0[p]));
            let jj = choose|jj: int| 0 <= jj < es0.len() && #[trigger] es0[jj] == (key(lt0[p]), lt0[p]);
            assert(es0[jj].0 != key(t));
        } else {
            assert(lt1[p] == lt0[p] && lt1[q] == lt0[q]);
        }
    };
    assert forall|p: int| 0 <= p < lt1.len() implies (#[trigger] lt1[p]).pronumerals.len() == 1 by {
        if p < i {
            assert(lt1[p] == lt0[p]);
        }
    };
}

proof fn lemma_insert_exact(es0: Seq<(char, TermModel)>, lt0: Seq<TermModel>, j: int, t: TermModel)
    requires
        holds_exactly(es0, lt0),
        0 <= j <= es0.len(),
    ensures
        holds_exactly(es0.insert(j, (key(t), t)), lt0.push(t)),
{
    reveal(holds_exactly);
    let es = es0.insert(j, (key(t), t));
    let lt1 = lt0.push(t);
    let i = lt0.len() as int;
    assert forall|k: int| 0 <= k < lt1.len() implies #[trigger] has_entry(es, lt1[k]) by {
        if k == i {
            assert(lt1[k] == t);
            assert(es[j] == (key(t), t));
        } else {
            assert(lt1[k] == lt0[k]);
            assert(has_entry(es0, lt0[k]));
            let jj = choose|jj: int| 0 <= jj < es0.len() && #[trigger] es0[jj] == (key(lt0[k]), lt0[k]);
            if jj < j {
                assert(es[jj] == es0[jj]);
            } else {
                assert(es[jj + 1] == es0[jj]);
            }
        }
    };
    assert forall|jj: int| 0 <= jj < es.len() implies #[trigger] has_term(lt1, es[jj]) by {
        if jj == j {
            assert(lt1[i] == t);
            assert(es[jj] == (key(lt1[i]), lt1[i]));
        } else {
            let jo = if jj < j {
                jj
            } else {
                jj - 1
            };
            assert(es[jj] == es0[jo]);
            assert(has_term(lt0, es0[jo]));
            let k = choose|k: int| 0 <= k < lt0.len() && es0[jo] == (key(#[trigger] lt0[k]), lt0[k]);
            assert(lt1[k] == lt0[k]);
        }
    };
    assert(es.len() == lt1.len());
}

impl StandardForm {
    /// The entries are in strictly increasing order of pronumeral, so no
    /// pronumeral has two.
    pub open spec fn wf(&self) -> bool {
        sorted(entry_views(self.terms@))
    }

    /// Whether the entries are in strictly increasing order of pronumeral.
    pub fn keys_increasing(&self) -> (r: bool)
        ensures
            r == self.wf(),
    {
        reveal(sorted);
        let n = self.terms.len();
        if n == 0 {
            return true;
        }
        let mut i: usize = 1;
        while i < n
            invariant
                1 <= i <= n,
                n == self.terms.len(),
                forall|a: int, b: int|
                    0 <= a < b < i ==> before(
                        #[trigger] entry_views(self.terms@)[a].0,
                        #[trigger] entry_views(self.terms@)[b].0,
                    ),
            decreases n - i,
        {
            if !(self.terms[i - 1].0 < self.terms[i].0) {
                assert(!sorted(entry_views(self.terms@))) by {
                    reveal(sorted);
                    assert(entry_views(self.terms@)[i - 1].0 == self.terms@[i - 1].0);
                    assert(entry_views(self.terms@)[i as int].0 == self.terms@[i as int].0);
                };
                return false;
            }
            assert forall|a: int, b: int| 0 <= a < b < i + 1 implies before(
                #[trigger] entry_views(self.terms@)[a].0,
                #[trigger] entry_views(self.terms@)[b].0,
            ) by {
                assert(entry_views(self.terms@)[i - 1].0 == self.terms@[i - 1].0);
                assert(entry_views(self.terms@)[i as int].0 == self.terms@[i as int].0);
                if b == i && a < i - 1 {
                    assert(before(entry_views(self.terms@)[a].0, entry_views(self.terms@)[i - 1].0));
                }
            };
            i = i + 1;
        }
        true
    }

    /// Reduces an equation to standard form.
    pub fn try_from(value: Expr) -> (r: Result<StandardForm, Error>)
        requires
            sides_well_formed(value@),
        ensures
            match standard_form_of(value@) {
                Ok(_) => r is Ok && reduces_to(r->Ok_0, value@),
                Err(x) => r == Err::<StandardForm, Error>(x),
            },
    {
        let ghost v = value@;
        let (lhs, rhs) = match value {
            Expr::Equation(lhs, rhs) => (lhs, rhs),
            _ => {
                return Err(Error::NotEquation);
            },
        };
        let ghost lm = (*lhs)@;
        let ghost rm = (*rhs)@;
        assert(v == ExprModel::Equation(Box::new(lm), Box::new(rm)));
        let raw = lhs.terms();
        let mut k: usize = 0;
        while k < raw.len()
            invariant
                k <= raw.len(),
                v == value@,
                v == ExprModel::Equation(Box::new(lm), Box::new(rm)),
                crate::expr::expr_views(raw@) == terms_of(lm),
                forall|k2: int| 0 <= k2 < k ==> !powered(#[trigger] terms_of(lm)[k2]),
            decreases raw.len() - k,
        {
            assert(crate::expr::expr_views(raw@)[k as int] == raw@[k as int]@);
            if has_powered_pronumeral(&raw[k]) {
                assert(!no_powers(terms_of(lm)));
                return Err(Error::PoweredPronumeral);
            }
            k = k + 1;
        }
        assert(no_powers(terms_of(lm)));
        proof {
            crate::termlist::lemma_terms_free(lm);
            assert forall|i: int| 0 <= i < raw.len() implies !has_equation(#[trigger] raw@[i]@) by {
                assert(crate::expr::expr_views(raw@)[i] == raw@[i]@);
            }
        }
        let lhs = TermList::simplify(raw);
        assert(term_views(lhs.terms@) == side_terms(lm));
        let mut rhs = TermList::from_expr(*rhs);
        let ghost rt = side_terms(rm);
        let ghost lt = side_terms(lm);
        assert(term_views(rhs.terms@) == rt);
        if rhs.terms.len() != 1 {
            return Err(Error::RightSideNotConstant);
        }
        let constant = rhs.terms.remove(0);
        assert(constant@ == rt[0]) by {
            assert(term_views(rhs.terms@.insert(0, constant))[0] == constant@);
        };
        if constant.pronumerals.len() != 0 {
            return Err(Error::RightSideNotConstant);
        }
        let mut rest = lhs.terms;
        let n = rest.len();
        assert(term_views(rest@) == lt);
        assert(bare_constant(rt));
        let mut entries: Vec<(char, Term)> = Vec::new();
        let mut i: usize = 0;
        proof {
            reveal(sorted);
            reveal(linear);
            reveal(holds_exactly);
        }
        while rest.len() > 0
            invariant
                i + rest.len() == n,
                n == lt.len(),
                term_views(rest@) == lt.subrange(i as int, n as int),
                sorted(entry_views(entries@)),
                holds_exactly(entry_views(entries@), lt.subrange(0, i as int)),
                linear(lt.subrange(0, i as int)),
                rt[0] == constant@,
                v == value@,
                no_powers(terms_of(lm)),
                standard_form_of(v) == match lhs_fault(lt) {
                    Some(x) => Err::<(Seq<TermModel>, TermModel), Error>(x),
                    None => Ok((lt, rt[0])),
                },
            decreases rest.len(),
        {
            let ghost prev = rest@;
            assert(term_views(prev)[0] == prev[0]@);
            let term = rest.remove(0);
            assert(term_views(rest@) =~= term_views(prev).subrange(1, prev.len() as int));
            assert(term_views(rest@) =~= lt.subrange(i + 1, n as int));
            assert(term@ == lt[i as int]);
            proof {
                lemma_no_fault_is_linear(lt.subrange(0, i as int));
                assert(lt.subrange(0, i + 1).drop_last() =~= lt.subrange(0, i as int));
                assert(lt.subrange(0, i + 1).last() == lt[i as int]);
            }
            if term.pronumerals.len() != 1 {
                proof {
                    assert(lhs_fault(lt.subrange(0, i + 1)) == Some(Error::PronumeralCount));
                    lemma_fault_of_prefix(lt, i + 1);
                }
                return Err(Error::PronumeralCount);
            }
            let c = term.pronumerals[0];
            let mut j: usize = 0;
            while j < entries.len() && entries[j].0 < c
                invariant
                    j <= entries.len(),
                    forall|a: int| 0 <= a < j ==> before(#[trigger] entries@[a].0, c),
                decreases entries.len() - j,
            {
                j = j + 1;
            }
            if j < entries.len() && entries[j].0 == c {
                proof {
                    reveal(holds_exactly);
                    let es = entry_views(entries@);
                    let p = lt.subrange(0, i as int);
                    assert(es[j as int].0 == c);
                    assert(has_term(p, es[j as int]));
                    let k = choose|k: int| 0 <= k < p.len() && es[j as int] == (key(#[trigger] p[k]), p[k]);
                    assert(key(p[k]) == key(lt[i as int]));
                    assert(lt.subrange(0, i + 1).drop_last() =~= p);
                    assert(lhs_fault(lt.subrange(0, i + 1)) == Some(Error::RepeatedPronumeral));
                    lemma_fault_of_prefix(lt, i + 1);
                }
                return Err(Error::RepeatedPronumeral);
            }
            let ghost old_entries = entries@;
            entries.insert(j, (c, term));
            proof {
                let es0 = entry_views(old_entries);
                assert(entry_views(entries@) =~= es0.insert(j as int, (c, lt[i as int])));
                assert(lt.subrange(0, i + 1) =~= lt.subrange(0, i as int).push(lt[i as int]));
                assert forall|a: int| 0 <= a < j implies before(#[trigger] es0[a].0, c) by {
                    assert(es0[a].0 == old_entries[a].0);
                };
                lemma_insert_entry(es0, lt.subrange(0, i as int), j as int, lt[i as int]);
            }
            i = i + 1;
        }
        assert(lt.subrange(0, n as int) =~= lt);
        proof {
            lemma_no_fault_is_linear(lt);
        }
        Ok(StandardForm { terms: entries, constant })
    }
}

} // verus!

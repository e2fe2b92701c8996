//! The assembly of standard-form equations into the square system `A x = b`.

use vstd::prelude::*;
use crate::standardform::{before, entry_views, sorted, StandardForm};
use crate::termlist::{term_views, Term, TermModel};

verus! {

#[derive(Debug, Clone, Copy, PartialEq, Eq, Structural)]
pub enum Error {
    /// There are no equations to solve.
    NoEquations,
    /// The number of pronumerals differs from the number of equations.
    MismatchedPronumeralCount,
    /// The pronumeral is in the first equation but not in the equation at this index.
    PronumeralNotCommon(char, usize),
}

impl Error {
    /// The text of the error. The pronumeral and the index of a
    /// `PronumeralNotCommon` are left to the caller, who holds them.
    pub fn message(&self) -> (r: String)
        ensures
            match self {
                Error::NoEquations => r@ == "There are no equations to solve!"@,
                Error::MismatchedPronumeralCount => r@
                    == "There are not the same number of pronumerals as equations, this makes the equation unsolveable"@,
                Error::PronumeralNotCommon(_, _) => r@
                    == "A pronumeral of the first equation is missing from another equation"@,
            },
    {
        match self {
            Error::NoEquations => String::from_str("There are no equations to solve!"),
            Error::MismatchedPronumeralCount => String::from_str(
                "There are not the same number of pronumerals as equations, this makes the equation unsolveable",
            ),
            Error::PronumeralNotCommon(_, _) => String::from_str(
                "A pronumeral of the first equation is missing from another equation",
            ),
        }
    }
}

/// A square system: `coefficients[a][i]` is the weight of `variables[a]` in
/// equation `i`, and `constants[i]` is the right side of equation `i`.
#[derive(Debug)]
pub struct MatrixForm {
    pub coefficients: Vec<Vec<Term>>,
    pub variables: Vec<char>,
    pub constants: Vec<Term>,
}

/// The entries of each equation.
pub open spec fn entry_lists(eqs: Seq<StandardForm>) -> Seq<Seq<(char, TermModel)>> {
    eqs.map_values(|f: StandardForm| entry_views(f.terms@))
}

/// Whether `es` holds the entry `(v, t)`.
pub open spec fn has_cell(es: Seq<(char, TermModel)>, v: char, t: TermModel) -> bool {
    exists|j: int| 0 <= j < es.len() && es[j] == (v, t)
}

/// Whether equation `i` has no entry for the `a`-th pronumeral of the first one.
pub open spec fn missing(fs: Seq<Seq<(char, TermModel)>>, a: int, i: int) -> bool {
    !exists|j: int| 0 <= j < fs[i].len() && (#[trigger] fs[i][j]).0 == fs[0][a].0
}

/// Every equation has an entry for every pronumeral of the first one.
pub open spec fn all_common(fs: Seq<Seq<(char, TermModel)>>) -> bool {
    forall|a: int, i: int| 0 <= a < fs[0].len() && 0 <= i < fs.len() ==> !#[trigger] missing(fs, a, i)
}

/// `(a, i)` is the first missing pair, pronumerals taken in order and, for each,
/// the equations in order.
pub open spec fn first_missing(fs: Seq<Seq<(char, TermModel)>>, a: int, i: int) -> bool {
    &&& 0 <= a < fs[0].len()
    &&& 0 <= i < fs.len()
    &&& missing(fs, a, i)
    &&& forall|a2: int, i2: int|
        0 <= a2 < a && 0 <= i2 < fs.len() ==> !#[trigger] missing(fs, a2, i2)
    &&& forall|i2: int| 0 <= i2 < i ==> !#[trigger] missing(fs, a, i2)
}

/// `e` names the first missing pair.
pub open spec fn reports_first_missing(fs: Seq<Seq<(char, TermModel)>>, e: Error) -> bool {
    match e {
        Error::PronumeralNotCommon(c, i) => exists|a: int|
            #[trigger] first_missing(fs, a, i as int) && c == fs[0][a].0,
        _ => false,
    }
}

/// `m` lays out the equations: the pronumerals of the first in order, each
/// column holding that pronumeral's weight in every equation.
pub open spec fn lays_out(m: MatrixForm, eqs: Seq<StandardForm>) -> bool {
    let fs = entry_lists(eqs);
    &&& m.variables@ == fs[0].map_values(|e: (char, TermModel)| e.0)
    &&& m.coefficients.len() == eqs.len()
    &&& forall|a: int| 0 <= a < eqs.len() ==> (#[trigger] m.coefficients@[a]).len() == eqs.len()
    &&& forall|a: int, i: int|
        0 <= a < eqs.len() && 0 <= i < eqs.len() ==> has_cell(fs[i], m.variables@[a], (#[trigger] m.coefficients@[a]@[i])@)
    &&& term_views(m.constants@) == eqs.map_values(|f: StandardForm| f.constant@)
}

/// The pronumerals of a list of entries, in order.
pub open spec fn key_seq(es: Seq<(char, TermModel)>) -> Seq<char> {
    es.map_values(|e: (char, TermModel)| e.0)
}

/// The pronumerals of a list of entries.
pub open spec fn key_set(es: Seq<(char, TermModel)>) -> Set<char> {
    key_seq(es).to_set()
}

/// The distinct pronumerals over all equations.
pub open spec fn all_keys(fs: Seq<Seq<(char, TermModel)>>) -> Set<char>
    decreases fs.len(),
{
    if fs.len() == 0 {
        Set::empty()
    } else {
        all_keys(fs.drop_last()).union(key_set(fs.last()))
    }
}

/// As many equations as the first has pronumerals, and as many as there are
/// distinct pronumerals over all of them.
pub open spec fn square(eqs: Seq<StandardForm>) -> bool {
    eqs.len() == eqs[0].terms.len() && all_keys(entry_lists(eqs)).len() == eqs.len()
}

/// `all_keys` is finite and holds exactly the pronumerals of the entries.
pub proof fn lemma_all_keys(fs: Seq<Seq<(char, TermModel)>>)
    ensures
        all_keys(fs).finite(),
        forall|i: int, j: int|
            0 <= i < fs.len() && 0 <= j < fs[i].len() ==> all_keys(fs).contains(#[trigger] fs[i][j].0),
        forall|c: char|
            #[trigger] all_keys(fs).contains(c) ==> exists|i: int, j: int|
                0 <= i < fs.len() && 0 <= j < fs[i].len() && #[trigger] fs[i][j].0 == c,
    decreases fs.len(),
{
    broadcast use vstd::seq_lib::seq_to_set_is_finite;

    if fs.len() > 0 {
        let p = fs.drop_last();
        let l = fs.last();
        let n = p.len() as int;
        lemma_all_keys(p);
        assert forall|i: int, j: int| 0 <= i < fs.len() && 0 <= j < fs[i].len() implies all_keys(
            fs,
        ).contains(#[trigger] fs[i][j].0) by {
            if i < n {
                assert(fs[i] == p[i]);
                assert(all_keys(p).contains(p[i][j].0));
            } else {
                assert(fs[i] == l);
                assert(key_seq(l)[j] == l[j].0);
                assert(key_seq(l).contains(l[j].0));
            }
        };
        assert forall|c: char| #[trigger] all_keys(fs).contains(c) implies exists|i: int, j: int|
            0 <= i < fs.len() && 0 <= j < fs[i].len() && #[trigger] fs[i][j].0 == c by {
            if all_keys(p).contains(c) {
                let (i, j) = choose|i: int, j: int|
                    0 <= i < p.len() && 0 <= j < p[i].len() && #[trigger] p[i][j].0 == c;
                assert(fs[i] == p[i]);
                assert(fs[i][j].0 == c);
            } else {
                assert(key_seq(l).contains(c));
                let j = choose|j: int| 0 <= j < key_seq(l).len() && key_seq(l)[j] == c;
                assert(fs[n] == l);
                assert(fs[n][j].0 == c);
            }
        };
    }
}

/// With its entries sorted, the first equation has as many distinct
/// pronumerals as entries.
pub proof fn lemma_key_set_len(es: Seq<(char, TermModel)>)
    requires
        sorted(es),
    ensures
        key_set(es).len() == es.len(),
        key_set(es).finite(),
{
    reveal(sorted);
    let ks = key_seq(es);
    assert(ks.no_duplicates()) by {
        assert forall|a: int, b: int| 0 <= a < ks.len() && 0 <= b < ks.len() && a != b implies ks[a]
            != ks[b] by {
            if a < b {
                assert(before(es[a].0, es[b].0));
            } else {
                assert(before(es[b].0, es[a].0));
            }
        };
    };
    ks.unique_seq_to_set();
    vstd::seq_lib::seq_to_set_is_finite(ks);
}

/// What laying out `eqs` gives: no equations, a count that differs from the
/// number of pronumerals of the first, the first missing pronumeral, or the layout.
pub open spec fn matrix_result(eqs: Seq<StandardForm>, r: Result<MatrixForm, Error>) -> bool {
    &&& eqs.len() == 0 ==> r == Err::<MatrixForm, Error>(Error::NoEquations)
    &&& eqs.len() > 0 && !square(eqs) ==> r == Err::<MatrixForm, Error>(
        Error::MismatchedPronumeralCount,
    )
    &&& eqs.len() > 0 && square(eqs) ==> {
        let fs = entry_lists(eqs);
        &&& (r is Ok <==> all_common(fs))
        &&& r is Ok ==> lays_out(r->Ok_0, eqs)
        &&& r is Err ==> reports_first_missing(fs, r->Err_0)
    }
}

fn find_key(es: &Vec<(char, Term)>, c: char) -> (r: Option<usize>)
    ensures
        match r {
            Some(j) => j < es.len() && es@[j as int].0 == c,
            None => forall|j: int| 0 <= j < es.len() ==> (#[trigger] es@[j]).0 != c,
        },
{
    let mut j: usize = 0;
    while j < es.len()
        invariant
            j <= es.len(),
            forall|k: int| 0 <= k < j ==> (#[trigger] es@[k]).0 != c,
        decreases es.len() - j,
    {
        if es[j].0 == c {
            return Some(j);
        }
        j = j + 1;
    }
    None
}

impl MatrixForm {
    /// Lays out a system of equations in standard form as a square matrix.
    pub fn try_from(equations: Vec<StandardForm>) -> (r: Result<MatrixForm, Error>)
        requires
            forall|i: int| 0 <= i < equations.len() ==> (#[trigger] equations@[i]).wf(),
        ensures
            matrix_result(equations@, r),
    {
        if equations.len() == 0 {
            return Err(Error::NoEquations);
        }
        let n = equations.len();
        let ghost fs = entry_lists(equations@);
        let mut variables: Vec<char> = Vec::new();
        let mut k: usize = 0;
        while k < equations[0].terms.len()
            invariant
                k <= equations@[0].terms.len(),
                variables@ == fs[0].subrange(0, k as int).map_values(|e: (char, TermModel)| e.0),
                fs == entry_lists(equations@),
                n == equations.len(),
                n > 0,
            decreases equations@[0].terms.len() - k,
        {
            variables.push(equations[0].terms[k].0);
            proof {
                assert(fs[0] == entry_views(equations@[0].terms@));
                assert(fs[0][k as int].0 == equations@[0].terms@[k as int].0);
                assert(fs[0].subrange(0, k + 1).map_values(|e: (char, TermModel)| e.0) =~= fs[
                    0
                ].subrange(0, k as int).map_values(|e: (char, TermModel)| e.0).push(fs[0][k as int].0));
            }
            k = k + 1;
        }
        proof {
            assert(fs[0] == entry_views(equations@[0].terms@));
            assert(fs[0].subrange(0, k as int) =~= fs[0]);
        }
        if n != variables.len() {
            return Err(Error::MismatchedPronumeralCount);
        }
        assert(fs.len() == n);
        assert(key_seq(fs[0]) == variables@);
        assert(sorted(fs[0])) by {
            assert(equations@[0].wf());
        };
        let mut i: usize = 0;
        while i < n
            invariant
                n == equations.len(),
                n == variables.len(),
                n == fs[0].len(),
                fs.len() == n,
                fs == entry_lists(equations@),
                sorted(fs[0]),
                i <= n,
                forall|i2: int, j2: int|
                    0 <= i2 < i && 0 <= j2 < fs[i2].len() ==> key_set(fs[0]).contains(
                        #[trigger] fs[i2][j2].0,
                    ),
            decreases n - i,
        {
            assert(fs[i as int] == entry_views(equations@[i as int].terms@));
            let mut j: usize = 0;
            while j < equations[i].terms.len()
                invariant
                    n == equations.len(),
                    n == fs[0].len(),
                    fs.len() == n,
                    fs == entry_lists(equations@),
                    i < n,
                    sorted(fs[0]),
                    fs[i as int] == entry_views(equations@[i as int].terms@),
                    j <= fs[i as int].len(),
                    forall|i2: int, j2: int|
                        0 <= i2 < i && 0 <= j2 < fs[i2].len() ==> key_set(fs[0]).contains(
                            #[trigger] fs[i2][j2].0,
                        ),
                    forall|j2: int| 0 <= j2 < j ==> key_set(fs[0]).contains(#[trigger] fs[i as int][j2].0),
                decreases fs[i as int].len() - j,
            {
                let c = equations[i].terms[j].0;
                assert(fs[i as int][j as int].0 == c);
                assert(fs[0] == entry_views(equations@[0].terms@));
                match find_key(&equations[0].terms, c) {
                    Some(jj) => {
                        proof {
                            assert(fs[0][jj as int].0 == c);
                            assert(key_seq(fs[0])[jj as int] == c);
                            assert(key_seq(fs[0]).contains(c));
                        }
                    },
                    None => {
                        proof {
                            assert(!key_set(fs[0]).contains(c)) by {
                                if key_seq(fs[0]).contains(c) {
                                    let jj = choose|jj: int|
                                        0 <= jj < key_seq(fs[0]).len() && key_seq(fs[0])[jj] == c;
                                    assert(fs[0][jj].0 == equations@[0].terms@[jj].0);
                                }
                            };
                            lemma_all_keys(fs);
                            lemma_key_set_len(fs[0]);
                            let big = key_set(fs[0]).insert(c);
                            assert(big.subset_of(all_keys(fs))) by {
                                assert forall|x: char| big.contains(x) implies all_keys(fs).contains(x) by {
                                    if x != c {
                                        let jx = choose|jx: int|
                                            0 <= jx < key_seq(fs[0]).len() && key_seq(fs[0])[jx] == x;
                                        assert(fs[0][jx].0 == x);
                                    }
                                };
                            };
                            vstd::set_lib::lemma_len_subset(big, all_keys(fs));
                            assert(!square(equations@));
                        }
                        return Err(Error::MismatchedPronumeralCount);
                    },
                }
                j = j + 1;
            }
            i = i + 1;
        }
        proof {
            lemma_all_keys(fs);
            lemma_key_set_len(fs[0]);
            assert(all_keys(fs) =~= key_set(fs[0])) by {
                assert forall|x: char| key_set(fs[0]).contains(x) implies all_keys(fs).contains(x) by {
                    let jx = choose|jx: int| 0 <= jx < key_seq(fs[0]).len() && key_seq(fs[0])[jx] == x;
                    assert(fs[0][jx].0 == x);
                };
                assert forall|x: char| all_keys(fs).contains(x) implies key_set(fs[0]).contains(x) by {
                    let (i2, j2) = choose|i2: int, j2: int|
                        0 <= i2 < fs.len() && 0 <= j2 < fs[i2].len() && #[trigger] fs[i2][j2].0 == x;
                };
            };
            assert(square(equations@));
        }
        let mut coefficients: Vec<Vec<Term>> = Vec::new();
        let mut a: usize = 0;
        while a < n
            invariant
                n == equations.len(),
                n == variables.len(),
                n == fs[0].len(),
                fs.len() == n,
                fs == entry_lists(equations@),
                square(equations@),
                variables@ == fs[0].map_values(|e: (char, TermModel)| e.0),
                a <= n,
                coefficients.len() == a,
                forall|a2: int| 0 <= a2 < a ==> (#[trigger] coefficients@[a2]).len() == n,
                forall|a2: int, i2: int|
                    0 <= a2 < a && 0 <= i2 < n ==> !#[trigger] missing(fs, a2, i2),
                forall|a2: int, i2: int|
                    0 <= a2 < a && 0 <= i2 < n ==> has_cell(fs[i2], variables@[a2], (#[trigger] coefficients@[a2]@[i2])@),
            decreases n - a,
        {
            let v = variables[a];
            let mut column: Vec<Term> = Vec::new();
            let mut i: usize = 0;
            while i < n
                invariant
                    n == equations.len(),
                    n == variables.len(),
                    n == fs[0].len(),
                    fs == entry_lists(equations@),
                    variables@ == fs[0].map_values(|e: (char, TermModel)| e.0),
                    a < n,
                    fs.len() == n,
                    square(equations@),
                    v == variables@[a as int],
                    coefficients.len() == a,
                    forall|a2: int| 0 <= a2 < a ==> (#[trigger] coefficients@[a2]).len() == n,
                    forall|a2: int, i2: int|
                        0 <= a2 < a && 0 <= i2 < n ==> !#[trigger] missing(fs, a2, i2),
                    forall|a2: int, i2: int|
                        0 <= a2 < a && 0 <= i2 < n ==> has_cell(fs[i2], variables@[a2], (#[trigger] coefficients@[a2]@[i2])@),
                    i <= n,
                    column.len() == i,
                    forall|i2: int| 0 <= i2 < i ==> !#[trigger] missing(fs, a as int, i2),
                    forall|i2: int|
                        0 <= i2 < i ==> has_cell(fs[i2], v, (#[trigger] column@[i2])@),
                decreases n - i,
            {
                let ghost es = fs[i as int];
                assert(es == entry_views(equations@[i as int].terms@));
                match find_key(&equations[i].terms, v) {
                    Some(j) => {
                        let cell = equations[i].terms[j].1.duplicate();
                        proof {
                            assert(es[j as int] == (v, cell@));
                            assert(!missing(fs, a as int, i as int)) by {
                                assert(fs[0][a as int].0 == v);
                            };
                        }
                        let ghost before = column@;
                        column.push(cell);
                        proof {
                            assert forall|i2: int| 0 <= i2 <= i implies has_cell(fs[i2], v, (#[trigger] column@[i2])@) by {
                                if i2 < i {
                                    assert(column@[i2] == before[i2]);
                                } else {
                                    assert(fs[i2][j as int] == (v, column@[i2]@));
                                }
                            };
                        }
                    },
                    None => {
                        proof {
                            assert(fs[0][a as int].0 == v);
                            assert(missing(fs, a as int, i as int)) by {
                                assert forall|jj: int| 0 <= jj < es.len() implies (
                                    #[trigger] es[jj]).0 != v by {
                                    assert(es[jj].0 == equations@[i as int].terms@[jj].0);
                                };
                            };
                            assert(!all_common(fs));
                            let e = Error::PronumeralNotCommon(v, i);
                            assert(e->PronumeralNotCommon_1 == i);
                            assert(first_missing(fs, a as int, e->PronumeralNotCommon_1 as int));
                            assert(reports_first_missing(fs, e));
                        }
                        return Err(Error::PronumeralNotCommon(v, i));
                    },
                }
                i = i + 1;
            }
            let ghost before = coefficients@;
            let ghost col = column@;
            coefficients.push(column);
            proof {
                assert(coefficients@[a as int]@ == col);
                assert forall|a2: int, i2: int|
                    0 <= a2 <= a && 0 <= i2 < n implies has_cell(fs[i2], variables@[a2], (#[trigger] coefficients@[a2]@[i2])@) by {
                    if a2 < a {
                        assert(coefficients@[a2] == before[a2]);
                    } else {
                        assert(coefficients@[a2]@[i2] == col[i2]);
                    }
                };
            }
            a = a + 1;
        }
        let mut constants: Vec<Term> = Vec::new();
        let mut i: usize = 0;
        while i < n
            invariant
                n == equations.len(),
                i <= n,
                term_views(constants@) == equations@.subrange(0, i as int).map_values(
                    |f: StandardForm| f.constant@,
                ),
            decreases n - i,
        {
            let c = equations[i].constant.duplicate();
            let ghost before = constants@;
            constants.push(c);
            proof {
                assert(term_views(constants@) =~= term_views(before).push(c@));
                assert(equations@.subrange(0, i + 1).map_values(|f: StandardForm| f.constant@)
                    =~= equations@.subrange(0, i as int).map_values(|f: StandardForm| f.constant@).push(
                    c@,
                ));
            }
            i = i + 1;
        }
        assert(equations@.subrange(0, n as int) =~= equations@);
        let m = MatrixForm { coefficients, variables, constants };
        assert(all_common(fs));
        assert(lays_out(m, equations@));
        Ok(m)
    }
}

} // verus!

use sles::expr::{parse, Constant, Expected, Expr, Op};
use sles::matrix::{self, MatrixForm};
use sles::solve::{self, solve_with_method, Method};
use sles::standardform::{self, StandardForm};
use sles::termlist::{Term, TermList};
use sles::token::{lex, Decimal, Token};

fn equation(text: &str) -> Expr {
    parse(&lex(text)).expect("the text should parse")
}

fn sides(text: &str) -> (Expr, Expr) {
    match equation(text) {
        Expr::Equation(l, r) => (*l, *r),
        other => panic!("not an equation: {other:?}"),
    }
}

fn decimal_value(d: &Decimal) -> f64 {
    let mut text = String::new();
    if d.negative {
        text.push('-');
    }
    for digit in &d.whole {
        text.push(char::from(b'0' + digit));
    }
    if !d.fraction.is_empty() {
        text.push('.');
        for digit in &d.fraction {
            text.push(char::from(b'0' + digit));
        }
    }
    text.parse().unwrap()
}

fn value(e: &Expr) -> f64 {
    match e {
        Expr::BinOp(l, op, r) => {
            let (a, b) = (value(l), value(r));
            match op {
                Op::Add => a + b,
                Op::Sub => a - b,
                Op::Mul => a * b,
                Op::Div => a / b,
                Op::Pow => a.powf(b),
            }
        }
        Expr::Num(d) => decimal_value(d),
        other => panic!("not numeric: {other:?}"),
    }
}

fn weight(t: &Term) -> f64 {
    let mut w = value(&t.coeff);
    for c in &t.constants {
        w *= match c {
            Constant::Pi => std::f64::consts::PI,
            Constant::E => std::f64::consts::E,
        };
    }
    w
}

fn close(a: f64, b: f64) -> bool {
    (a - b).abs() < 1e-9
}

#[test]
fn lexes_constants_numbers_and_pronumerals() {
    let lexemes = lex("pi PI e 12.5 x 3.");
    let tokens: Vec<Option<Token>> = lexemes.iter().map(|l| l.token.clone()).collect();
    assert_eq!(tokens.len(), 7);
    assert!(matches!(tokens[0], Some(Token::Pi)));
    assert!(matches!(tokens[1], Some(Token::Pi)));
    assert!(matches!(tokens[2], Some(Token::E)));
    match &tokens[3] {
        Some(Token::Number(d)) => {
            assert_eq!(d.whole, vec![1, 2]);
            assert_eq!(d.fraction, vec![5]);
            assert!(!d.negative);
        }
        other => panic!("expected a number, got {other:?}"),
    }
    assert!(matches!(tokens[4], Some(Token::Pronumeral('x'))));
    assert!(matches!(tokens[5], Some(Token::Number(_))));
    assert!(tokens[6].is_none());
    assert_eq!((lexemes[3].start, lexemes[3].end), (8, 12));
    assert_eq!((lexemes[6].start, lexemes[6].end), (16, 17));
}

#[test]
fn unknown_characters_are_skipped() {
    let (lhs, rhs) = sides("2x # = 4");
    assert!(close(value(&TermList::from_expr(rhs).terms[0].coeff), 4.0));
    let terms = TermList::from_expr(lhs).terms;
    assert_eq!(terms.len(), 1);
    assert_eq!(terms[0].pronumerals, vec!['x']);
}

#[test]
fn round_trip_terms_are_not_merged() {
    let (lhs, _) = sides("2*x + 3*x = 0");
    let terms = TermList::from_expr(lhs).terms;
    assert_eq!(terms.len(), 2);
    assert_eq!(terms[0].pronumerals, vec!['x']);
    assert_eq!(terms[1].pronumerals, vec!['x']);
    assert!(close(weight(&terms[0]), 2.0));
    assert!(close(weight(&terms[1]), 3.0));
    let sf = StandardForm::try_from(equation("2*x + 3*x = 5"));
    assert!(matches!(sf, Err(standardform::Error::RepeatedPronumeral)));
}

#[test]
fn multiplication_binds_tighter_than_addition() {
    let (lhs, _) = sides("2 + 3 * 4 = 0");
    assert!(matches!(&lhs, Expr::BinOp(_, Op::Add, r) if matches!(**r, Expr::BinOp(_, Op::Mul, _))));
    assert!(close(value(&lhs), 14.0));
}

#[test]
fn powers_fold_to_the_left() {
    let (lhs, _) = sides("2 ^ 3 ^ 2 = 0");
    assert!(close(value(&lhs), 64.0));
}

#[test]
fn subtraction_folds_to_the_left() {
    let (lhs, _) = sides("10 - 4 - 3 = 0");
    assert!(close(value(&lhs), 3.0));
}

#[test]
fn unary_minus_gives_minus_one() {
    let (lhs, _) = sides("-x + 3 = 0");
    let terms = TermList::from_expr(lhs).terms;
    assert_eq!(terms.len(), 2);
    assert_eq!(terms[0].pronumerals, vec!['x']);
    assert!(close(weight(&terms[0]), -1.0));
    assert!(terms[1].pronumerals.is_empty());
    assert!(close(weight(&terms[1]), 3.0));
}

#[test]
fn subtracted_terms_are_negated() {
    let (lhs, _) = sides("x - 2y - (3z + 4w) = 0");
    let terms = TermList::from_expr(lhs).terms;
    let found: Vec<(Vec<char>, f64)> = terms.iter().map(|t| (t.pronumerals.clone(), weight(t))).collect();
    assert_eq!(found.len(), 4);
    assert_eq!(found[0].0, vec!['x']);
    assert!(close(found[0].1, 1.0));
    assert_eq!(found[1].0, vec!['y']);
    assert!(close(found[1].1, -2.0));
    assert_eq!(found[2].0, vec!['z']);
    assert!(close(found[2].1, -3.0));
    assert_eq!(found[3].0, vec!['w']);
    assert!(close(found[3].1, -4.0));
}

#[test]
fn implicit_multiplication_and_division() {
    let (lhs, _) = sides("3x/2 = 0");
    let terms = TermList::from_expr(lhs).terms;
    assert_eq!(terms.len(), 1);
    assert!(close(weight(&terms[0]), 1.5));
}

#[test]
fn parse_errors_name_what_was_expected() {
    let missing = parse(&lex("x + 1")).unwrap_err();
    assert_eq!(missing.len(), 1);
    assert_eq!(missing[0].expected, Expected::Equals);
    assert_eq!((missing[0].start, missing[0].end), (5, 5));
    let twice = parse(&lex("x = 1 = 2")).unwrap_err();
    assert_eq!(twice[0].expected, Expected::End);
    assert_eq!((twice[0].start, twice[0].end), (6, 7));
    let open = parse(&lex("(x = 1")).unwrap_err();
    assert_eq!(open[0].expected, Expected::RParen);
    let empty = parse(&lex("")).unwrap_err();
    assert_eq!(empty[0].expected, Expected::Operand);
    assert_eq!((empty[0].start, empty[0].end), (0, 0));
}

#[test]
fn rejects_duplicate_pronumeral() {
    let r = StandardForm::try_from(equation("x + x = 4"));
    assert!(matches!(r, Err(standardform::Error::RepeatedPronumeral)));
    let r = StandardForm::try_from(equation("y + 2x + y = 4"));
    assert!(matches!(r, Err(standardform::Error::RepeatedPronumeral)));
}

#[test]
fn rejects_power_of_pronumeral() {
    let r = StandardForm::try_from(equation("x^2 = 4"));
    assert!(matches!(r, Err(standardform::Error::PoweredPronumeral)));
    let r = StandardForm::try_from(equation("2^x = 4"));
    assert!(matches!(r, Err(standardform::Error::PoweredPronumeral)));
    let r = StandardForm::try_from(equation("x + y^2 = y"));
    assert!(matches!(r, Err(standardform::Error::PoweredPronumeral)));
}

#[test]
fn rejects_pronumeral_on_the_right() {
    let r = StandardForm::try_from(equation("3 = y"));
    assert!(matches!(r, Err(standardform::Error::RightSideNotConstant)));
    let r = StandardForm::try_from(equation("x = 1 + 2"));
    assert!(matches!(r, Err(standardform::Error::RightSideNotConstant)));
    let r = StandardForm::try_from(equation("x + x = y"));
    assert!(matches!(r, Err(standardform::Error::RightSideNotConstant)));
}

#[test]
fn rejects_term_without_one_pronumeral() {
    let r = StandardForm::try_from(equation("x y = 2"));
    assert!(matches!(r, Err(standardform::Error::PronumeralCount)));
    let r = StandardForm::try_from(equation("x + 3 = 1"));
    assert!(matches!(r, Err(standardform::Error::PronumeralCount)));
    let r = StandardForm::try_from(equation("3 + x + x = 1"));
    assert!(matches!(r, Err(standardform::Error::PronumeralCount)));
}

#[test]
fn rejects_non_equation() {
    let r = StandardForm::try_from(Expr::Var('x'));
    assert!(matches!(r, Err(standardform::Error::NotEquation)));
}

#[test]
fn standard_form_sorts_pronumerals() {
    let sf = StandardForm::try_from(equation("3y + 2x = 8")).unwrap();
    let keys: Vec<char> = sf.terms.iter().map(|(c, _)| *c).collect();
    assert_eq!(keys, vec!['x', 'y']);
    assert!(close(weight(&sf.terms[0].1), 2.0));
    assert!(close(weight(&sf.terms[1].1), 3.0));
    assert!(close(weight(&sf.constant), 8.0));
}

#[test]
fn constants_are_folded_into_weights() {
    let sf = StandardForm::try_from(equation("pi*x = 2*pi")).unwrap();
    assert_eq!(sf.terms.len(), 1);
    assert_eq!(sf.terms[0].0, 'x');
    assert_eq!(sf.terms[0].1.constants, vec![Constant::Pi]);
    assert!(close(weight(&sf.terms[0].1), std::f64::consts::PI));
    assert!(close(weight(&sf.constant), 2.0 * std::f64::consts::PI));
    let sf = StandardForm::try_from(equation("e x = e")).unwrap();
    assert!(close(weight(&sf.terms[0].1), std::f64::consts::E));
}

fn solve_numerically(m: &MatrixForm) -> Vec<(char, f64)> {
    let n = m.variables.len();
    let a = nalgebra::DMatrix::from_fn(n, n, |i, j| weight(&m.coefficients[j][i]));
    let b = nalgebra::DVector::from_fn(n, |i, _| weight(&m.constants[i]));
    let x = a.pseudo_inverse(1e-11).unwrap() * b;
    m.variables.iter().copied().zip(x.iter().copied()).collect()
}

#[test]
fn end_to_end_two_equations() {
    let first = StandardForm::try_from(equation("2x + 3y = 8")).unwrap();
    assert!(close(weight(&first.terms[0].1), 2.0) && close(weight(&first.terms[1].1), 3.0));
    assert!(close(weight(&first.constant), 8.0));
    let second = StandardForm::try_from(equation("x - y = 1")).unwrap();
    assert!(close(weight(&second.terms[0].1), 1.0) && close(weight(&second.terms[1].1), -1.0));
    assert!(close(weight(&second.constant), 1.0));
    let m = solve_with_method(vec![equation("2x + 3y = 8"), equation("x - y = 1")], Method::Matrix).unwrap();
    assert_eq!(m.variables, vec!['x', 'y']);
    let solution = solve_numerically(&m);
    assert_eq!(solution[0].0, 'x');
    assert!(close(solution[0].1, 2.2));
    assert_eq!(solution[1].0, 'y');
    assert!(close(solution[1].1, 1.2));
}

#[test]
fn no_equations_is_an_error() {
    let r = solve_with_method(Vec::new(), Method::Matrix);
    assert!(matches!(
        r,
        Err(solve::Error::StandardFormToMatrixFormConversionFail(matrix::Error::NoEquations))
    ));
    assert!(matches!(MatrixForm::try_from(Vec::new()), Err(matrix::Error::NoEquations)));
}

#[test]
fn count_mismatch_is_an_error() {
    let r = solve_with_method(vec![equation("x + y = 1")], Method::Matrix);
    assert!(matches!(
        r,
        Err(solve::Error::StandardFormToMatrixFormConversionFail(matrix::Error::MismatchedPronumeralCount))
    ));
}

#[test]
fn missing_pronumeral_is_reported() {
    let r = solve_with_method(vec![equation("x + y = 1"), equation("x = 2")], Method::Matrix);
    assert!(matches!(
        r,
        Err(solve::Error::StandardFormToMatrixFormConversionFail(matrix::Error::PronumeralNotCommon('y', 1)))
    ));
}

#[test]
fn pronumeral_of_a_later_equation_is_counted() {
    let r = solve_with_method(vec![equation("x + y = 1"), equation("x + z = 2")], Method::Matrix);
    assert!(matches!(
        r,
        Err(solve::Error::StandardFormToMatrixFormConversionFail(matrix::Error::MismatchedPronumeralCount))
    ));
    let r = solve_with_method(vec![equation("x + y = 1"), equation("x + y + z = 2")], Method::Matrix);
    assert!(matches!(
        r,
        Err(solve::Error::StandardFormToMatrixFormConversionFail(matrix::Error::MismatchedPronumeralCount))
    ));
}

#[test]
fn first_bad_equation_is_reported() {
    let r = solve_with_method(vec![equation("x = 1"), equation("x = y"), Expr::Var('x')], Method::Matrix);
    assert!(matches!(
        r,
        Err(solve::Error::ExprToStandardFormConversionFail(standardform::Error::RightSideNotConstant))
    ));
}

#[test]
fn session_without_equations_reports_no_equations() {
    let mut session = sles::session::Session::new();
    assert_eq!(session.len(), 0);
    assert!(session.terms().is_none());
    let r = session.solve(Method::Matrix);
    assert!(matches!(
        r,
        Err(solve::Error::StandardFormToMatrixFormConversionFail(matrix::Error::NoEquations))
    ));
}

#[test]
fn session_solves_and_clears() {
    let mut session = sles::session::Session::new();
    let first = equation("2x + 3y = 8");
    assert!(sles::session::Session::can_add(&first));
    assert!(!sles::session::Session::can_add(&Expr::Var('x')));
    session.add(first);
    session.add(equation("x - y = 1"));
    assert_eq!(session.len(), 2);
    let m = session.solve(Method::Matrix).unwrap();
    assert_eq!(session.len(), 0);
    let solution = solve_numerically(&m);
    assert!(close(solution[0].1, 2.2) && close(solution[1].1, 1.2));
}

#[test]
fn session_terms_of_both_sides() {
    let mut session = sles::session::Session::new();
    session.add(equation("2x - y = 3 + 1"));
    let lists = session.terms().unwrap();
    assert_eq!(session.len(), 0);
    assert_eq!(lists.len(), 1);
    let (lhs, rhs) = &lists[0];
    assert_eq!(lhs.terms.len(), 2);
    assert!(close(weight(&lhs.terms[1]), -1.0));
    assert_eq!(rhs.terms.len(), 2);
    assert!(close(weight(&rhs.terms[0]) + weight(&rhs.terms[1]), 4.0));
}

#[test]
fn standard_form_entries_are_increasing() {
    let sf = StandardForm::try_from(equation("z + 2y + 3x = 1")).unwrap();
    assert!(sf.keys_increasing());
    let mut swapped = StandardForm::try_from(equation("2y + 3x = 1")).unwrap();
    swapped.terms.swap(0, 1);
    assert!(!swapped.keys_increasing());
}

#[test]
fn error_messages() {
    assert_eq!(standardform::Error::RepeatedPronumeral.message(), "A pronumeral appears in more than one term of the left side.");
    assert_eq!(matrix::Error::NoEquations.message(), "There are no equations to solve!");
    assert_eq!(
        solve::Error::ExprToStandardFormConversionFail(standardform::Error::NotEquation).message(),
        "Failed to convert the equation from an expression to standard form."
    );
}

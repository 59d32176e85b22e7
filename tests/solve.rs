use wordeq::engine::{solve, SatResult};
use wordeq::word::{verify, Label, Letter, Unifier, Word, WordEquation};

const A: u64 = 1;
const B: u64 = 2;
const X: u64 = 10;
const Y: u64 = 11;

fn c(v: u64) -> Letter {
    Label::Constant(v)
}

fn v(x: u64) -> Letter {
    Label::Variable(x)
}

fn equation(left: Vec<Letter>, right: Vec<Letter>) -> WordEquation<u64, u64> {
    WordEquation::new(Word::new(left), Word::new(right))
}

fn sat(eq: &WordEquation<u64, u64>) -> Unifier<u64, u64> {
    match solve(eq.clone()) {
        SatResult::Sat(u) => {
            assert!(verify(&u, eq));
            u
        }
        SatResult::Unsat => panic!("expected Sat, got Unsat"),
        SatResult::InvariantFailure => panic!("expected Sat, got an invariant failure"),
    }
}

fn is_unsat(eq: &WordEquation<u64, u64>) -> bool {
    matches!(solve(eq.clone()), SatResult::Unsat)
}

#[test]
fn same_variable_both_sides() {
    let eq = equation(vec![v(X)], vec![v(X)]);
    let u = sat(&eq);
    assert_eq!(u.get(X), Some(vec![]));
}

#[test]
fn constant_commutes_with_variable() {
    let eq = equation(vec![c(A), v(X)], vec![v(X), c(A)]);
    let u = sat(&eq);
    let w = u.get(X).unwrap();
    assert!(w.iter().all(|l| *l == c(A)));
}

#[test]
fn variable_then_constant_commutes() {
    let eq = equation(vec![v(X), c(A)], vec![c(A), v(X)]);
    sat(&eq);
}

#[test]
fn distinct_constants_unsat() {
    assert!(is_unsat(&equation(vec![c(A)], vec![c(B)])));
}

#[test]
fn conjugate_with_distinct_constants_unsat() {
    assert!(is_unsat(&equation(vec![v(X), c(A)], vec![c(B), v(X)])));
}

#[test]
fn two_variables_commute() {
    let eq = equation(vec![v(X), v(Y)], vec![v(Y), v(X)]);
    let u = sat(&eq);
    let x = u.get(X).unwrap();
    let y = u.get(Y).unwrap();
    let mut xy = x.clone();
    xy.extend(y.iter().copied());
    let mut yx = y.clone();
    yx.extend(x.iter().copied());
    assert_eq!(xy, yx);
}

#[test]
fn equal_constant_words_sat() {
    let eq = equation(vec![c(A), c(B)], vec![c(A), c(B)]);
    sat(&eq);
}

#[test]
fn doubled_variable_against_one_constant_unsat() {
    assert!(is_unsat(&equation(vec![v(X), v(X)], vec![c(A)])));
}

#[test]
fn variable_around_constant_takes_empty() {
    let eq = equation(vec![v(X), c(A), v(X)], vec![c(A)]);
    let u = sat(&eq);
    assert_eq!(u.get(X), Some(vec![]));
}

#[test]
fn variable_forced_to_constant() {
    let eq = equation(vec![v(X), c(B)], vec![c(A), c(B)]);
    let u = sat(&eq);
    assert_eq!(u.get(X), Some(vec![c(A)]));
}

#[test]
fn two_variables_forced_to_word() {
    let eq = equation(vec![v(X), c(B), v(Y)], vec![c(A), c(B), c(A)]);
    let u = sat(&eq);
    assert_eq!(u.get(X), Some(vec![c(A)]));
    assert_eq!(u.get(Y), Some(vec![c(A)]));
}

#[test]
fn constant_against_empty_side_unsat() {
    assert!(is_unsat(&equation(vec![c(A)], vec![])));
}

#[test]
fn variables_against_empty_side_sat() {
    let eq = equation(vec![v(X), v(Y)], vec![]);
    let u = sat(&eq);
    assert_eq!(u.get(X), Some(vec![]));
    assert_eq!(u.get(Y), Some(vec![]));
}

#[test]
fn verify_rejects_wrong_substitution() {
    let eq = equation(vec![v(X), c(B)], vec![c(A), c(B)]);
    let mut u = Unifier::new();
    u.bind(X, Word::new(vec![c(B)]));
    assert!(!verify(&u, &eq));
    u.bind(X, Word::new(vec![c(A)]));
    assert!(verify(&u, &eq));
}

#[test]
fn apply_word_replaces_bound_variables() {
    let mut u = Unifier::new();
    u.bind(X, Word::new(vec![c(A), c(B)]));
    assert_eq!(u.apply_word(&vec![v(X), c(A), v(Y), v(X)]), vec![c(A), c(B), c(A), v(Y), c(A), c(B)]);
}

#[test]
fn later_binding_overrides() {
    let mut u = Unifier::new();
    u.bind(X, Word::new(vec![c(A)]));
    u.bind(X, Word::new(vec![c(B)]));
    assert_eq!(u.get(X), Some(vec![c(B)]));
    assert_eq!(u.get(Y), None);
}

#[test]
fn length_parity_unsat() {
    assert!(is_unsat(&equation(vec![v(X), c(A), v(X)], vec![c(A), c(A)])));
}

#[test]
fn sat_binds_every_variable_to_constants() {
    let eq = equation(vec![v(X), c(A), v(Y)], vec![c(A), v(Y), c(A)]);
    let u = sat(&eq);
    for var in [X, Y] {
        let w = u.get(var).unwrap();
        assert!(w.iter().all(|l| matches!(l, Label::Constant(_))));
    }
}

use wordeq::ge::{
    is_boundary_pair_column, is_boundary_pair_empty, is_boundary_pair_indecomposable, Base, BaseId,
    Boundary, C1Violation, C2Violation, GeneralizedEquation, MalformedEquationError,
};
use wordeq::word::{Label, Letter, Word, WordEquation};

fn c(v: u64) -> Letter {
    Label::Constant(v)
}

fn v(x: u64) -> Letter {
    Label::Variable(x)
}

fn ge_of(left: Vec<Letter>, right: Vec<Letter>) -> Result<GeneralizedEquation<u64, u64>, MalformedEquationError> {
    GeneralizedEquation::from_equation(&WordEquation::new(Word::new(left), Word::new(right)))
}

fn base(label: Letter, bs: &[usize]) -> Base<u64, u64> {
    Base { label, boundaries: bs.iter().map(|b| Boundary(*b)).collect() }
}

#[test]
fn empty_side_is_malformed() {
    assert_eq!(ge_of(vec![], vec![v(10)]), Err(MalformedEquationError));
    assert_eq!(ge_of(vec![v(10)], vec![]), Err(MalformedEquationError));
}

#[test]
fn layout_of_equation() {
    let ge = ge_of(vec![v(10), c(1)], vec![c(1), v(10)]).unwrap();
    assert_eq!(ge.bases.len(), 4);
    for (k, b) in ge.bases.iter().enumerate() {
        assert_eq!(b.boundaries, vec![Boundary(k), Boundary(k + 1)]);
    }
    assert_eq!(ge.bases[3].label, v(10));
    assert_eq!(ge.var2base, vec![(10, false, BaseId(0)), (10, true, BaseId(3))]);
}

#[test]
fn quadratic_equation_is_consistent() {
    let ge = ge_of(vec![v(10), v(11)], vec![v(11), v(10)]).unwrap();
    assert!(ge.checkC1().is_empty());
    assert!(ge.checkC2().is_empty());
}

#[test]
fn single_occurrence_not_enough_duals() {
    let ge = ge_of(vec![v(10), c(1)], vec![c(1)]).unwrap();
    assert_eq!(ge.checkC1(), vec![C1Violation::NotEnoughDuals(10)]);
}

#[test]
fn three_occurrences_too_many_duals() {
    let ge = ge_of(vec![v(10), v(10)], vec![v(10), v(11), v(11)]).unwrap();
    assert_eq!(ge.checkC1(), vec![C1Violation::TooManyDuals(10, BaseId(0), BaseId(1), BaseId(2))]);
}

#[test]
fn unequal_lengths_reported() {
    let ge = GeneralizedEquation {
        bases: vec![base(v(10), &[0, 1]), base(v(10), &[1, 3])],
        var2base: vec![(10, false, BaseId(0)), (10, true, BaseId(1))],
    };
    assert_eq!(ge.checkC1(), vec![C1Violation::NotEqualBoundaryLength(10, BaseId(0), BaseId(1))]);
}

#[test]
fn wide_constant_reported() {
    let ge = GeneralizedEquation {
        bases: vec![base(c(1), &[0, 1]), base(c(2), &[1, 2, 3]), base(v(10), &[3, 4, 5])],
        var2base: vec![(10, false, BaseId(2))],
    };
    assert_eq!(ge.checkC2(), vec![C2Violation::BoundaryLengthNotTwo(2, BaseId(1))]);
}

#[test]
fn solved_iff_variable_bases_empty() {
    let ge = ge_of(vec![v(10)], vec![c(1)]).unwrap();
    assert!(!ge.is_solved());
    let done = GeneralizedEquation {
        bases: vec![base(c(1), &[0, 1]), base(v(10), &[1, 1]), base(v(10), &[])],
        var2base: vec![(10, false, BaseId(1)), (10, true, BaseId(2))],
    };
    assert!(done.is_solved());
}

#[test]
fn base_solved_by_pairs() {
    assert!(base(c(1), &[0, 5]).is_solved());
    assert!(base(v(10), &[0, 1, 1, 2]).is_solved());
    assert!(base(v(10), &[3, 1]).is_solved());
    assert!(!base(v(10), &[0, 2]).is_solved());
    assert!(base(v(10), &[0, 1]).is_variable());
    assert!(base(c(1), &[0, 1]).is_constant());
}

#[test]
fn boundary_pairs() {
    assert!(is_boundary_pair_column(&Boundary(2), &Boundary(2)));
    assert!(!is_boundary_pair_column(&Boundary(3), &Boundary(2)));
    assert!(is_boundary_pair_indecomposable(&Boundary(2), &Boundary(3)));
    assert!(!is_boundary_pair_indecomposable(&Boundary(2), &Boundary(4)));
    assert!(!is_boundary_pair_indecomposable(&Boundary(usize::MAX), &Boundary(0)));
    assert!(is_boundary_pair_empty(&Boundary(4), &Boundary(4)));
    assert!(!is_boundary_pair_empty(&Boundary(4), &Boundary(5)));
}

#[test]
fn unindexed_variable_base_not_enough_duals() {
    let ge = GeneralizedEquation { bases: vec![base(v(10), &[0, 1])], var2base: vec![] };
    assert_eq!(ge.checkC1(), vec![C1Violation::NotEnoughDuals(10)]);
}

#[test]
fn three_bases_two_entries_too_many_duals() {
    let ge = GeneralizedEquation {
        bases: vec![base(v(10), &[0, 1]), base(v(10), &[1, 2]), base(v(10), &[2, 3])],
        var2base: vec![(10, false, BaseId(0)), (10, true, BaseId(1))],
    };
    assert_eq!(ge.checkC1(), vec![C1Violation::TooManyDuals(10, BaseId(0), BaseId(1), BaseId(2))]);
}

#[test]
fn repeated_entries_for_one_base_not_enough_duals() {
    let ge = GeneralizedEquation {
        bases: vec![base(v(10), &[0, 1])],
        var2base: vec![(10, false, BaseId(0)), (10, true, BaseId(0)), (10, true, BaseId(0))],
    };
    assert_eq!(ge.checkC1(), vec![C1Violation::NotEnoughDuals(10)]);
}

#[test]
fn index_only_variable_not_enough_duals() {
    let ge = GeneralizedEquation {
        bases: vec![base(c(1), &[0, 1])],
        var2base: vec![(12, false, BaseId(0))],
    };
    assert_eq!(ge.checkC1(), vec![C1Violation::NotEnoughDuals(12)]);
}

use wordeq::engine::{search, solve, successors, Node, Path, SatResult};
use wordeq::ge::GeneralizedEquation;
use wordeq::word::{Label, Letter, Unifier, Word, WordEquation};

fn c(v: u64) -> Letter {
    Label::Constant(v)
}

fn v(x: u64) -> Letter {
    Label::Variable(x)
}

fn node(lhs: Vec<Letter>, rhs: Vec<Letter>) -> Node {
    let mut images = Unifier::new();
    for l in lhs.iter().chain(rhs.iter()) {
        if let Label::Variable(x) = l {
            if images.get(*x).is_none() {
                images.bind(*x, Word::new(vec![*l]));
            }
        }
    }
    Node { lhs, rhs, images }
}

#[test]
fn accepting_node_is_not_expanded() {
    let mut images = Unifier::new();
    images.bind(10, Word::new(vec![c(1), v(11)]));
    let n = Node { lhs: vec![], rhs: vec![], images };
    let mut path: Path = Vec::new();
    let found = search(&n, &mut path, 0, 0).unwrap();
    assert_eq!(found.get(10), Some(vec![c(1), v(11)]));
    assert!(path.is_empty());
}

#[test]
fn node_over_bound_is_dead() {
    let n = node(vec![v(10), c(1)], vec![c(1), v(10)]);
    let mut path: Path = Vec::new();
    assert!(search(&n, &mut path, 3, 1000).is_none());
    assert!(search(&n, &mut path, 4, 0).is_none());
    assert!(search(&n, &mut path, 4, 1000).is_some());
    assert!(path.is_empty());
}

#[test]
fn cancelling_equal_fronts() {
    let n = node(vec![c(1), v(10)], vec![c(1), v(10)]);
    let next = successors(&n);
    assert_eq!(next.len(), 1);
    assert_eq!(next[0].lhs, vec![v(10)]);
    assert_eq!(next[0].rhs, vec![v(10)]);
}

#[test]
fn variable_against_constant_branches() {
    let n = node(vec![v(10), c(2)], vec![c(1), v(10)]);
    let next = successors(&n);
    assert_eq!(next.len(), 2);
    assert_eq!(next[0].lhs, vec![c(2)]);
    assert_eq!(next[0].rhs, vec![c(1)]);
    assert_eq!(next[0].images.get(10), Some(vec![]));
    assert_eq!(next[1].lhs, vec![v(10), c(2)]);
    assert_eq!(next[1].rhs, vec![c(1), v(10)]);
    assert_eq!(next[1].images.get(10), Some(vec![c(1), v(10)]));
}

#[test]
fn two_variables_branch_four_ways() {
    let n = node(vec![v(10), v(11)], vec![v(11), v(10)]);
    let next = successors(&n);
    assert_eq!(next.len(), 4);
    assert_eq!((next[0].lhs.clone(), next[0].rhs.clone()), (vec![v(11)], vec![v(11)]));
    assert_eq!((next[1].lhs.clone(), next[1].rhs.clone()), (vec![v(10)], vec![v(10)]));
    assert_eq!((next[2].lhs.clone(), next[2].rhs.clone()), (vec![v(10), v(11)], vec![v(11), v(10)]));
    assert_eq!(next[2].images.get(10), Some(vec![v(11), v(10)]));
    assert_eq!(next[3].images.get(11), Some(vec![v(10), v(11)]));
}

#[test]
fn constant_fronts_that_differ_have_no_successor() {
    let n = node(vec![c(1), v(10)], vec![c(2), v(10)]);
    assert!(successors(&n).is_empty());
    let m = node(vec![c(1)], vec![]);
    assert!(successors(&m).is_empty());
}

#[test]
fn successors_of_quadratic_equations_stay_consistent() {
    let starts = vec![
        node(vec![v(10), c(1), v(11)], vec![v(11), c(1), v(10)]),
        node(vec![v(10), v(11), c(2)], vec![c(1), v(11), v(10)]),
        node(vec![c(1), v(10), v(10)], vec![v(11), c(1), v(11)]),
    ];
    for start in starts {
        let mut frontier = vec![start];
        for _ in 0..3 {
            let mut next = Vec::new();
            for n in &frontier {
                if n.lhs.is_empty() && n.rhs.is_empty() {
                    continue;
                }
                for m in successors(n) {
                    assert!(m.lhs.len() + m.rhs.len() <= n.lhs.len() + n.rhs.len());
                    let eq = WordEquation::new(Word::new(m.lhs.clone()), Word::new(m.rhs.clone()));
                    if let Ok(ge) = GeneralizedEquation::from_equation(&eq) {
                        assert!(ge.checkC1().is_empty());
                        assert!(ge.checkC2().is_empty());
                    }
                    next.push(m);
                }
            }
            frontier = next;
        }
    }
}

#[test]
fn search_terminates_on_unsatisfiable_quadratic() {
    let eq = WordEquation::new(
        Word::new(vec![v(10), c(1), v(11)]),
        Word::new(vec![v(11), c(2), v(10)]),
    );
    assert!(matches!(solve(eq), SatResult::Unsat));
}

#[test]
fn identical_sides_sat_at_once() {
    let eq = WordEquation::new(Word::new(vec![v(10), c(1), v(10)]), Word::new(vec![v(10), c(1), v(10)]));
    match solve(eq) {
        SatResult::Sat(u) => assert_eq!(u.get(10), Some(vec![])),
        _ => panic!("expected Sat"),
    }
}

#[test]
fn constant_words_decided_by_equality() {
    let eq = WordEquation::new(Word::new(vec![c(1), c(2)]), Word::new(vec![c(1), c(1)]));
    assert!(matches!(solve(eq), SatResult::Unsat));
    let eq = WordEquation::new(Word::new(vec![]), Word::new(vec![]));
    assert!(matches!(solve(eq), SatResult::Sat(_)));
}

use logicpad_solver::answer::{query, Answer, Query};
use logicpad_solver::puzzle::Color;
use logicpad_solver::solver::LogicPadSolver;

#[test]
fn query_follows_the_kind_of_solve() {
    assert_eq!(query(true), Query::Facts);
    assert_eq!(query(false), Query::Model);
}

#[test]
fn unsat_gives_no_solution() {
    let s = LogicPadSolver::new(2, 2, None);
    assert_eq!(s.solve(&Answer::Unsat), None);
}

#[test]
fn model_is_read_cell_by_cell() {
    let s = LogicPadSolver::new(2, 2, None);
    let answer = Answer::Model {
        is_white: vec![vec![true, false], vec![false, true]],
        is_black: vec![vec![false, true], vec![false, true]],
    };
    assert_eq!(
        s.solve(&answer),
        Some(vec![vec![Some(Color::White), Some(Color::Black)], vec![None, None]])
    );
}

#[test]
fn facts_colour_a_cell_only_if_both_values_are_known_and_differ() {
    let s = LogicPadSolver::new(1, 9, None);
    let t = Some(true);
    let f = Some(false);
    let n = None;
    let answer = Answer::Facts {
        is_white: vec![vec![t, f, t, f, t, f, n, n, n]],
        is_black: vec![vec![f, t, t, f, n, n, t, f, n]],
    };
    assert_eq!(
        s.solve(&answer),
        Some(vec![vec![
            Some(Color::White),
            Some(Color::Black),
            None,
            None,
            None,
            None,
            None,
            None,
            None
        ]])
    );
}

#[test]
fn single_open_tile_is_either_colour_when_decided_and_unknown_when_underclued() {
    let s = LogicPadSolver::new(1, 1, None);
    let white = Answer::Model { is_white: vec![vec![true]], is_black: vec![vec![false]] };
    let black = Answer::Model { is_white: vec![vec![false]], is_black: vec![vec![true]] };
    assert_eq!(s.solve(&white), Some(vec![vec![Some(Color::White)]]));
    assert_eq!(s.solve(&black), Some(vec![vec![Some(Color::Black)]]));
    let facts = Answer::Facts { is_white: vec![vec![None]], is_black: vec![vec![None]] };
    assert_eq!(s.solve(&facts), Some(vec![vec![None]]));
}

#[test]
fn answers_know_their_size() {
    let a = Answer::Model { is_white: vec![vec![true, false]], is_black: vec![vec![false, true]] };
    assert!(a.check_fits(1, 2));
    assert!(!a.check_fits(2, 1));
    assert!(!a.check_fits(1, 3));
    let ragged = Answer::Facts { is_white: vec![vec![None], vec![]], is_black: vec![vec![None], vec![None]] };
    assert!(!ragged.check_fits(2, 1));
    assert!(Answer::Unsat.check_fits(5, 5));
}

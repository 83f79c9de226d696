use logicpad_solver::patterns::{
    compare_patterns, enumerate_patterns, flip_pattern, rotate_pattern, sort_patterns, Sign,
};
use logicpad_solver::puzzle::Color;

const G: Color = Color::Undecided;
const W: Color = Color::White;
const B: Color = Color::Black;

#[test]
fn rotate_turns_clockwise() {
    let p = vec![vec![W, B, G]];
    let r = rotate_pattern(&p);
    assert_eq!(r, vec![vec![W], vec![B], vec![G]]);
}

#[test]
fn rotate_places_entry_in_last_column_of_its_row_index() {
    // The entry (y, x) of a pattern of height 2 goes to (x, 1 - y).
    let p = vec![vec![W, B, G], vec![B, B, W]];
    let r = rotate_pattern(&p);
    assert_eq!(r, vec![vec![B, W], vec![B, B], vec![W, G]]);
}

#[test]
fn flip_mirrors_rows() {
    let p = vec![vec![W, B], vec![G, W]];
    let f = flip_pattern(&p);
    assert_eq!(f, vec![vec![B, W], vec![W, G]]);
}

#[test]
fn rotate_four_times_is_identity() {
    let p = vec![vec![W, B, G], vec![B, G, G]];
    let r = rotate_pattern(&rotate_pattern(&rotate_pattern(&rotate_pattern(&p))));
    assert_eq!(r, p);
}

#[test]
fn flip_twice_is_identity() {
    let p = vec![vec![W, B, G], vec![B, G, G]];
    assert_eq!(flip_pattern(&flip_pattern(&p)), p);
}

#[test]
fn enumerate_of_uniform_pattern_is_single() {
    let p = vec![vec![W]];
    assert_eq!(enumerate_patterns(&p), vec![vec![vec![W]]]);
}

#[test]
fn enumerate_of_domino_is_sorted_and_deduped() {
    let p = vec![vec![W, B]];
    let e = enumerate_patterns(&p);
    assert_eq!(
        e,
        vec![vec![vec![W], vec![B]], vec![vec![W, B]], vec![vec![B], vec![W]], vec![vec![B, W]]]
    );
}

#[test]
fn enumerate_of_asymmetric_pattern_has_eight_images() {
    let p = vec![vec![W, B, G], vec![B, G, G]];
    let e = enumerate_patterns(&p);
    assert_eq!(e.len(), 8);
    for i in 1..e.len() {
        assert!(e[i - 1] < e[i]);
    }
}

#[test]
fn enumerate_is_closed_under_rotate_and_flip() {
    let p = vec![vec![W, B, G], vec![B, G, W]];
    let e = enumerate_patterns(&p);
    assert!(e.len() <= 8);
    for q in &e {
        assert!(e.contains(&rotate_pattern(q)));
        assert!(e.contains(&flip_pattern(q)));
    }
    assert!(e.contains(&p));
}

#[test]
fn enumerate_agrees_with_the_order_of_vectors() {
    let p = vec![vec![B, W], vec![G, W], vec![W, W]];
    let mut all = vec![];
    let mut q = p.clone();
    for _ in 0..4 {
        all.push(q.clone());
        all.push(flip_pattern(&q));
        q = rotate_pattern(&q);
    }
    all.sort();
    all.dedup();
    assert_eq!(enumerate_patterns(&p), all);
}

#[test]
fn compare_patterns_orders_by_rows_then_length() {
    let a = vec![vec![W]];
    let b = vec![vec![W], vec![G]];
    let c = vec![vec![W, G]];
    assert_eq!(compare_patterns(&a, &b), Sign::Less);
    assert_eq!(compare_patterns(&b, &a), Sign::Greater);
    assert_eq!(compare_patterns(&a, &a), Sign::Equal);
    assert_eq!(compare_patterns(&b, &c), Sign::Less);
    assert_eq!(compare_patterns(&vec![vec![G]], &vec![vec![W]]), Sign::Less);
    assert_eq!(compare_patterns(&vec![vec![B]], &vec![vec![W]]), Sign::Greater);
}

#[test]
fn sort_patterns_keeps_each_pattern_once() {
    let list = vec![vec![vec![B]], vec![vec![W]], vec![vec![B]], vec![vec![G]]];
    assert_eq!(sort_patterns(list), vec![vec![vec![G]], vec![vec![W]], vec![vec![B]]]);
}

use logicpad_solver::shapes::{
    board_is_numbered, first_violation, ClosedBlock, ConstraintType, ShapesConstraint,
};

fn board(height: usize, width: usize, kind: ConstraintType, rows: &[&str]) -> ShapesConstraint {
    let mut s = ShapesConstraint::new(height, width, kind);
    s.initialize_sat(height * width);
    for (y, row) in rows.iter().enumerate() {
        for (x, ch) in row.chars().enumerate() {
            match ch {
                '#' => s.notify(y * width + x, true),
                '.' => s.notify(y * width + x, false),
                _ => {}
            }
        }
    }
    s
}

#[test]
fn new_propagator_has_nothing_decided() {
    let s = ShapesConstraint::new(2, 3, ConstraintType::AllEqual);
    assert_eq!(s.height(), 2);
    assert_eq!(s.width(), 3);
    assert_eq!(s.depth(), 0);
    assert_eq!(s.find_inconsistency(), None);
    assert!(s.closed_blocks().is_empty());
}

#[test]
fn notify_and_undo_are_paired() {
    let mut s = ShapesConstraint::new(1, 3, ConstraintType::AllDifferent);
    s.notify(0, true);
    s.notify(1, false);
    s.notify(2, true);
    assert_eq!(s.depth(), 3);
    assert!(s.find_inconsistency().is_some());
    s.undo();
    assert_eq!(s.depth(), 2);
    // The block at cell 0 is closed, the cell 2 is undecided again.
    assert_eq!(s.find_inconsistency(), None);
    assert_eq!(s.closed_blocks().len(), 1);
    s.undo();
    s.undo();
    assert_eq!(s.depth(), 0);
    assert!(s.closed_blocks().is_empty());
}

#[test]
fn notify_sets_the_cell_of_the_index() {
    let mut s = ShapesConstraint::new(2, 3, ConstraintType::AllEqual);
    for i in 0..6 {
        s.notify(i, i == 4);
    }
    let blocks = s.closed_blocks();
    assert_eq!(blocks.len(), 1);
    assert_eq!(blocks[0].cells, vec![(1, 1)]);
    assert_eq!(blocks[0].canonical, vec![(0, 0)]);
}

#[test]
fn all_different_reports_two_blocks_of_one_shape() {
    let s = board(1, 5, ConstraintType::AllDifferent, &["#.#.?"]);
    assert_eq!(
        s.find_inconsistency(),
        Some(vec![(2, true), (1, false), (3, false), (0, true), (1, false)])
    );
}

#[test]
fn all_equal_reports_two_blocks_of_different_shapes() {
    let s = board(1, 6, ConstraintType::AllEqual, &["#.##.?"]);
    assert_eq!(
        s.find_inconsistency(),
        Some(vec![(2, true), (1, false), (3, true), (4, false), (0, true), (1, false)])
    );
}

#[test]
fn all_equal_accepts_blocks_of_one_shape() {
    let s = board(2, 5, ConstraintType::AllEqual, &["##.#.", "...#."]);
    assert_eq!(s.closed_blocks().len(), 2);
    assert_eq!(s.find_inconsistency(), None);
}

#[test]
fn all_different_accepts_blocks_of_different_shapes() {
    let s = board(2, 5, ConstraintType::AllDifferent, &["##.#.", ".....", ]);
    assert_eq!(s.closed_blocks().len(), 2);
    assert_eq!(s.find_inconsistency(), None);
}

#[test]
fn open_blocks_are_ignored() {
    let s = board(1, 4, ConstraintType::AllDifferent, &["#?#."]);
    assert!(s.closed_blocks().is_empty());
    assert_eq!(s.find_inconsistency(), None);
    let t = board(1, 5, ConstraintType::AllEqual, &["#.##?"]);
    assert_eq!(t.closed_blocks().len(), 1);
    assert_eq!(t.find_inconsistency(), None);
}

#[test]
fn blocks_are_found_in_row_major_order_breadth_first() {
    let s = board(3, 3, ConstraintType::AllEqual, &[".#.", "###", ".#."]);
    let blocks = s.closed_blocks();
    assert_eq!(blocks.len(), 1);
    // From (0,1): down (1,1); from (1,1): down (2,1), left (1,0), right (1,2).
    assert_eq!(blocks[0].cells, vec![(0, 1), (1, 1), (2, 1), (1, 0), (1, 2)]);
    assert_eq!(blocks[0].canonical, vec![(0, 1), (1, 0), (1, 1), (1, 2), (2, 1)]);
}

#[test]
fn unique_shape_rejects_two_congruent_tetrominoes() {
    // Two L tetrominoes, one turned: the same shape.
    let rows = ["#...", "#..#", "##.#", "..##"];
    let s = board(4, 4, ConstraintType::AllDifferent, &rows);
    let blocks = s.closed_blocks();
    assert_eq!(blocks.len(), 2);
    assert_eq!(blocks[0].canonical, blocks[1].canonical);
    let reason = s.find_inconsistency().expect("two congruent blocks");
    // Every decision of the reason is true of the board.
    for (index, value) in &reason {
        let ch = rows[index / 4].as_bytes()[index % 4];
        assert_eq!(*value, ch == b'#');
    }
    // The reason holds every cell of both blocks.
    for b in &blocks {
        for (y, x) in &b.cells {
            assert!(reason.contains(&(y * 4 + x, true)));
        }
    }
    let t = board(4, 4, ConstraintType::AllEqual, &rows);
    assert_eq!(t.find_inconsistency(), None);
}

#[test]
fn unique_shape_accepts_tetrominoes_of_different_shapes() {
    let rows = ["#..#", "#..#", "##.#", "...#"];
    let s = board(4, 4, ConstraintType::AllDifferent, &rows);
    assert_eq!(s.closed_blocks().len(), 2);
    assert_eq!(s.find_inconsistency(), None);
    let t = board(4, 4, ConstraintType::AllEqual, &rows);
    assert!(t.find_inconsistency().is_some());
}

#[test]
fn find_inconsistency_leaves_the_state() {
    let s = board(1, 5, ConstraintType::AllDifferent, &["#.#.?"]);
    let first = s.find_inconsistency();
    let second = s.find_inconsistency();
    assert_eq!(first, second);
    assert_eq!(s.depth(), 4);
}

#[test]
fn first_violation_takes_the_first_pair() {
    let block = |canonical: Vec<(i32, i32)>| ClosedBlock { canonical, cells: vec![(0, 0)] };
    let a = vec![(0, 0)];
    let b = vec![(0, 0), (0, 1)];
    let c = vec![(0, 0), (0, 1), (0, 2)];
    let list = vec![block(a.clone()), block(b.clone()), block(c.clone()), block(b.clone()), block(a.clone())];
    assert_eq!(first_violation(ConstraintType::AllDifferent, &list), Some((3, 1)));
    assert_eq!(first_violation(ConstraintType::AllEqual, &list), Some((1, 0)));
    let same = vec![block(a.clone()), block(a.clone()), block(b.clone())];
    assert_eq!(first_violation(ConstraintType::AllDifferent, &same), Some((1, 0)));
    assert_eq!(first_violation(ConstraintType::AllEqual, &same), Some((2, 0)));
    let none: Vec<ClosedBlock> = vec![];
    assert_eq!(first_violation(ConstraintType::AllDifferent, &none), None);
    assert_eq!(first_violation(ConstraintType::AllEqual, &none), None);
    let one = vec![block(c)];
    assert_eq!(first_violation(ConstraintType::AllDifferent, &one), None);
    assert_eq!(first_violation(ConstraintType::AllEqual, &one), None);
}

#[test]
fn boards_that_can_be_numbered() {
    assert!(board_is_numbered(0, 0));
    assert!(board_is_numbered(4, 4));
    assert!(board_is_numbered(i32::MAX as usize, 0));
    assert!(board_is_numbered(i32::MAX as usize, 1));
    assert!(!board_is_numbered(i32::MAX as usize + 1, 1));
    assert!(!board_is_numbered(1, i32::MAX as usize + 1));
    assert!(!board_is_numbered(usize::MAX, usize::MAX));
}

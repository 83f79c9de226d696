use logicpad_solver::error::SolveError;
use logicpad_solver::expr::{BoolExpr, Command, ConstraintType, GridExpr, IntExpr, IntVar};
use logicpad_solver::puzzle::{
    AreaNumberTile, Color, Connection, DartTile, GalaxyTile, LetterTile, LotusTile,
    MinesweeperTile, Orientation, Tile, ViewpointTile,
};
use logicpad_solver::solver::{crop_pattern, LogicPadSolver};

fn w(y: usize, x: usize) -> BoolExpr {
    BoolExpr::var(0, y, x)
}

fn b(y: usize, x: usize) -> BoolExpr {
    BoolExpr::var(1, y, x)
}

fn post(e: BoolExpr) -> Command {
    Command::Post(e)
}

fn count(es: Vec<BoolExpr>) -> IntExpr {
    IntExpr::count_true(es)
}

fn num(c: i32) -> IntExpr {
    IntExpr::constant(c)
}

fn open_tile() -> Tile {
    Tile { exists: true, fixed: false, color: Color::Undecided }
}

fn fixed(color: Color) -> Tile {
    Tile { exists: true, fixed: true, color }
}

fn missing() -> Tile {
    Tile { exists: false, fixed: false, color: Color::Undecided }
}

fn gray() -> Tile {
    Tile { exists: true, fixed: false, color: Color::Undecided }
}

fn initial() -> Vec<Command> {
    vec![
        Command::NewBoolGrid { grid: 0 },
        Command::NewBoolGrid { grid: 1 },
        Command::AnswerKey { grid: 0 },
        Command::AnswerKey { grid: 1 },
    ]
}

/// The commands that were written after the session began.
fn added(s: &LogicPadSolver) -> &[Command] {
    assert_eq!(&s.commands()[..4], &initial()[..]);
    &s.commands()[4..]
}

#[test]
fn new_session_declares_the_two_colour_grids() {
    let s = LogicPadSolver::new(2, 3, Some(1));
    assert_eq!(s.height(), 2);
    assert_eq!(s.width(), 3);
    assert_eq!(s.off_by(), Some(1));
    assert_eq!(s.commands(), &initial());
}

#[test]
fn tiles_get_one_colour_or_none() {
    let mut s = LogicPadSolver::new(2, 2, None);
    let tiles = vec![vec![missing(), fixed(Color::Black)], vec![open_tile(), fixed(Color::White)]];
    assert_eq!(s.add_tiles(&tiles), Ok(()));
    assert_eq!(
        added(&s),
        &[
            post(BoolExpr::not(b(0, 0))),
            post(BoolExpr::not(w(0, 0))),
            post(BoolExpr::xor(b(0, 1), w(0, 1))),
            post(b(0, 1)),
            post(BoolExpr::xor(b(1, 0), w(1, 0))),
            post(BoolExpr::xor(b(1, 1), w(1, 1))),
            post(w(1, 1)),
        ]
    );
}

#[test]
fn gray_fixed_tile_is_refused() {
    let mut s = LogicPadSolver::new(1, 2, None);
    let tiles = vec![vec![open_tile(), fixed(Color::Undecided)]];
    let r = s.add_tiles(&tiles);
    assert_eq!(r, Err(SolveError::GrayTileFixed));
    assert_eq!(r.unwrap_err().message(), "gray tile is fixed");
    assert_eq!(s.commands(), &initial());
}

#[test]
fn gray_fixed_tile_that_is_missing_is_accepted() {
    let mut s = LogicPadSolver::new(1, 1, None);
    let tiles = vec![vec![Tile { exists: false, fixed: true, color: Color::Undecided }]];
    assert_eq!(s.add_tiles(&tiles), Ok(()));
    assert_eq!(added(&s), &[post(BoolExpr::not(b(0, 0))), post(BoolExpr::not(w(0, 0)))]);
}

#[test]
fn connections_tie_both_colour_grids() {
    let mut s = LogicPadSolver::new(2, 2, None);
    s.add_connections(&[Connection { y1: 0, x1: 1, y2: 1, x2: 0 }]);
    assert_eq!(
        added(&s),
        &[post(BoolExpr::iff(w(0, 1), w(1, 0))), post(BoolExpr::iff(b(0, 1), b(1, 0)))]
    );
}

#[test]
fn connect_all_names_the_grid_of_the_colour() {
    let mut s = LogicPadSolver::new(2, 2, None);
    assert_eq!(s.add_connect_all(Color::White), Ok(()));
    assert_eq!(s.add_connect_all(Color::Black), Ok(()));
    assert_eq!(
        added(&s),
        &[
            Command::Connected(GridExpr::Bools { grid: 0 }),
            Command::Connected(GridExpr::Bools { grid: 1 }),
        ]
    );
    let r = s.add_connect_all(Color::Undecided);
    assert_eq!(r, Err(SolveError::ConnectAllGray));
    assert_eq!(r.unwrap_err().message(), "connectAll with gray color");
    assert_eq!(added(&s).len(), 2);
}

#[test]
fn minesweeper_box_in_a_corner_is_clipped() {
    let mut s = LogicPadSolver::new(3, 3, None);
    s.add_minesweeper(&[MinesweeperTile { y: 0, x: 0, number: 2 }]);
    assert_eq!(
        added(&s),
        &[
            post(BoolExpr::imp(
                w(0, 0),
                BoolExpr::eq(count(vec![b(0, 0), b(0, 1), b(1, 0), b(1, 1)]), num(2))
            )),
            post(BoolExpr::imp(
                b(0, 0),
                BoolExpr::eq(count(vec![w(0, 0), w(0, 1), w(1, 0), w(1, 1)]), num(2))
            )),
        ]
    );
}

#[test]
fn minesweeper_box_in_the_last_corner_and_in_the_middle() {
    let mut s = LogicPadSolver::new(3, 4, None);
    s.add_minesweeper(&[
        MinesweeperTile { y: 2, x: 3, number: 1 },
        MinesweeperTile { y: 1, x: 1, number: 0 },
    ]);
    let cmds = added(&s);
    assert_eq!(cmds.len(), 4);
    assert_eq!(
        cmds[0],
        post(BoolExpr::imp(
            w(2, 3),
            BoolExpr::eq(count(vec![b(1, 2), b(1, 3), b(2, 2), b(2, 3)]), num(1))
        ))
    );
    let mut all = vec![];
    for y in 0..3 {
        for x in 0..3 {
            all.push(w(y, x));
        }
    }
    assert_eq!(cmds[3], post(BoolExpr::imp(b(1, 1), BoolExpr::eq(count(all), num(0)))));
}

#[test]
fn off_by_turns_a_clue_into_two_numbers() {
    let mut s = LogicPadSolver::new(1, 2, Some(1));
    s.add_minesweeper(&[MinesweeperTile { y: 0, x: 0, number: 2 }]);
    assert_eq!(
        added(&s)[0],
        post(BoolExpr::imp(
            w(0, 0),
            BoolExpr::or2(
                BoolExpr::eq(count(vec![b(0, 0), b(0, 1)]), num(3)),
                BoolExpr::eq(count(vec![b(0, 0), b(0, 1)]), num(1)),
            )
        ))
    );
}

#[test]
fn both_colours_connected_forbids_checkerboards_and_counts_changes_on_the_rim() {
    let mut s = LogicPadSolver::new(2, 2, None);
    s.add_connect_all_both_color();
    let differ = |p: (usize, usize), q: (usize, usize)| {
        BoolExpr::or2(
            BoolExpr::and2(w(p.0, p.1), b(q.0, q.1)),
            BoolExpr::and2(b(p.0, p.1), w(q.0, q.1)),
        )
    };
    assert_eq!(
        added(&s),
        &[
            post(BoolExpr::not(BoolExpr::and(vec![w(0, 0), b(0, 1), b(1, 0), w(1, 1)]))),
            post(BoolExpr::not(BoolExpr::and(vec![b(0, 0), w(0, 1), w(1, 0), b(1, 1)]))),
            post(BoolExpr::le(
                count(vec![
                    differ((0, 0), (0, 1)),
                    differ((0, 1), (1, 1)),
                    differ((1, 1), (1, 0)),
                    differ((1, 0), (0, 0)),
                ]),
                num(2)
            )),
        ]
    );
}

#[test]
fn rim_of_a_larger_board_runs_clockwise() {
    let mut s = LogicPadSolver::new(3, 4, None);
    s.add_connect_all_both_color();
    let cmds = added(&s);
    assert_eq!(cmds.len(), 2 * 2 * 3 + 1);
    let ring = [
        (0, 0),
        (0, 1),
        (0, 2),
        (0, 3),
        (1, 3),
        (2, 3),
        (2, 2),
        (2, 1),
        (2, 0),
        (1, 0),
    ];
    let mut changes = vec![];
    for i in 0..ring.len() {
        let p = ring[i];
        let q = ring[(i + 1) % ring.len()];
        changes.push(BoolExpr::or2(
            BoolExpr::and2(w(p.0, p.1), b(q.0, q.1)),
            BoolExpr::and2(b(p.0, p.1), w(q.0, q.1)),
        ));
    }
    assert_eq!(cmds[12], post(BoolExpr::le(count(changes), num(2))));
}

#[test]
fn pointing_cells_run_to_the_rim() {
    let s = LogicPadSolver::new(3, 4, None);
    assert_eq!(s.pointing_cells(1, 1, Orientation::Up), vec![(0, 1)]);
    assert_eq!(s.pointing_cells(1, 1, Orientation::Down), vec![(2, 1)]);
    assert_eq!(s.pointing_cells(1, 1, Orientation::Left), vec![(1, 0)]);
    assert_eq!(s.pointing_cells(1, 1, Orientation::Right), vec![(1, 2), (1, 3)]);
    assert_eq!(s.pointing_cells(0, 0, Orientation::DownRight), vec![(1, 1), (2, 2)]);
    assert_eq!(s.pointing_cells(2, 0, Orientation::UpRight), vec![(1, 1), (0, 2)]);
    assert_eq!(s.pointing_cells(0, 3, Orientation::DownLeft), vec![(1, 2), (2, 1)]);
    assert_eq!(s.pointing_cells(2, 3, Orientation::UpLeft), vec![(1, 2), (0, 1)]);
    assert_eq!(s.pointing_cells(0, 0, Orientation::Up), vec![]);
    assert_eq!(s.pointing_cells(0, 0, Orientation::UpLeft), vec![]);
    assert_eq!(s.pointing_cells(2, 3, Orientation::Right), vec![]);
}

#[test]
fn darts_count_the_other_colour_on_the_ray() {
    let mut s = LogicPadSolver::new(1, 3, None);
    s.add_darts(&[DartTile { y: 0, x: 0, orientation: Orientation::Right, number: 1 }]);
    assert_eq!(
        added(&s),
        &[
            post(BoolExpr::imp(b(0, 0), BoolExpr::eq(count(vec![w(0, 1), w(0, 2)]), num(1)))),
            post(BoolExpr::imp(w(0, 0), BoolExpr::eq(count(vec![b(0, 1), b(0, 2)]), num(1)))),
        ]
    );
}

#[test]
fn viewpoints_count_the_cell_and_the_four_runs() {
    let mut s = LogicPadSolver::new(2, 2, None);
    s.add_viewpoints(&[ViewpointTile { y: 0, x: 0, number: 3 }]);
    let seen = |g: usize| {
        let run = |cells: Vec<(usize, usize)>| {
            IntExpr::consecutive_prefix_true(
                cells.into_iter().map(|(y, x)| BoolExpr::var(g, y, x)).collect(),
            )
        };
        let e = IntExpr::sum(num(1), run(vec![]));
        let e = IntExpr::sum(e, run(vec![]));
        let e = IntExpr::sum(e, run(vec![(1, 0)]));
        IntExpr::sum(e, run(vec![(0, 1)]))
    };
    assert_eq!(
        added(&s),
        &[
            post(BoolExpr::imp(b(0, 0), BoolExpr::eq(seen(1), num(3)))),
            post(BoolExpr::imp(w(0, 0), BoolExpr::eq(seen(0), num(3)))),
        ]
    );
}

#[test]
fn shapes_and_cell_count() {
    let mut s = LogicPadSolver::new(1, 2, None);
    s.add_same_shape(Color::White);
    s.add_unique_shape(Color::Black);
    s.add_cell_count(Color::Black, 1);
    assert_eq!(
        added(&s),
        &[
            Command::Shapes { kind: ConstraintType::AllEqual, grid: 0 },
            Command::Shapes { kind: ConstraintType::AllDifferent, grid: 1 },
            post(BoolExpr::eq(count(vec![b(0, 0), b(0, 1)]), num(1))),
        ]
    );
}

#[test]
fn cell_count_is_not_changed_by_off_by() {
    let mut s = LogicPadSolver::new(1, 1, Some(2));
    s.add_cell_count(Color::White, 1);
    assert_eq!(added(&s), &[post(BoolExpr::eq(count(vec![w(0, 0)]), num(1)))]);
}

#[test]
fn empty_forbidden_pattern_is_refused() {
    let mut s = LogicPadSolver::new(2, 2, None);
    let r = s.add_forbidden_pattern(&[vec![gray(), gray()], vec![gray(), gray()]]);
    assert_eq!(r, Err(SolveError::EmptyForbiddenPattern));
    assert_eq!(r.unwrap_err().message(), "empty forbidden pattern");
    assert_eq!(s.commands(), &initial());
    let r = s.add_forbidden_pattern(&[vec![]]);
    assert_eq!(r, Err(SolveError::EmptyForbiddenPattern));
}

#[test]
fn forbidden_pattern_is_cropped_to_its_colours() {
    let pattern = vec![
        vec![gray(), gray(), gray(), gray()],
        vec![gray(), fixed(Color::White), gray(), fixed(Color::Black)],
        vec![gray(), gray(), fixed(Color::Black), gray()],
    ];
    assert_eq!(
        crop_pattern(&pattern),
        Some(vec![
            vec![Color::White, Color::Undecided, Color::Black],
            vec![Color::Undecided, Color::Black, Color::Undecided],
        ])
    );
    assert_eq!(crop_pattern(&[vec![gray()]]), None);
}

#[test]
fn forbidden_pattern_is_posted_in_every_orientation_and_place() {
    let mut s = LogicPadSolver::new(1, 3, None);
    let pattern = vec![vec![gray(), fixed(Color::White), fixed(Color::Black)]];
    assert_eq!(s.add_forbidden_pattern(&pattern), Ok(()));
    // The images in their order: [[W],[B]] and [[B],[W]] do not fit on the
    // board; [[W,B]] comes before [[B,W]].
    assert_eq!(
        added(&s),
        &[
            post(BoolExpr::not(BoolExpr::and(vec![w(0, 0), b(0, 1)]))),
            post(BoolExpr::not(BoolExpr::and(vec![w(0, 1), b(0, 2)]))),
            post(BoolExpr::not(BoolExpr::and(vec![b(0, 0), w(0, 1)]))),
            post(BoolExpr::not(BoolExpr::and(vec![b(0, 1), w(0, 2)]))),
        ]
    );
}

#[test]
fn forbidden_pattern_skips_gray_cells() {
    let mut s = LogicPadSolver::new(2, 2, None);
    let pattern = vec![vec![fixed(Color::White), gray()], vec![gray(), fixed(Color::White)]];
    assert_eq!(s.add_forbidden_pattern(&pattern), Ok(()));
    // Two images: the diagonal from the upper right comes first.
    assert_eq!(
        added(&s),
        &[
            post(BoolExpr::not(BoolExpr::and(vec![w(0, 1), w(1, 0)]))),
            post(BoolExpr::not(BoolExpr::and(vec![w(0, 0), w(1, 1)]))),
        ]
    );
}

#[test]
fn forbidden_pattern_larger_than_the_board_posts_nothing() {
    let mut s = LogicPadSolver::new(1, 1, None);
    let pattern = vec![vec![fixed(Color::White), fixed(Color::White)]];
    assert_eq!(s.add_forbidden_pattern(&pattern), Ok(()));
    assert!(added(&s).is_empty());
}

fn apart(p: (usize, usize), q: (usize, usize)) -> BoolExpr {
    BoolExpr::not(BoolExpr::or2(
        BoolExpr::and2(w(p.0, p.1), w(q.0, q.1)),
        BoolExpr::and2(b(p.0, p.1), b(q.0, q.1)),
    ))
}

#[test]
fn area_numbers_on_a_strip() {
    let mut s = LogicPadSolver::new(1, 6, None);
    let clues =
        [AreaNumberTile { y: 0, x: 0, number: 3 }, AreaNumberTile { y: 0, x: 3, number: 3 }];
    assert_eq!(s.add_area_numbers(Some(&clues), None, None), Ok(()));
    assert_eq!(
        added(&s),
        &[Command::GraphDivision {
            sizes: vec![Some(num(3)), None, None, Some(num(3)), None, None],
            edges: vec![(1, 0), (2, 1), (3, 2), (4, 3), (5, 4)],
            cuts: vec![
                apart((0, 1), (0, 0)),
                apart((0, 2), (0, 1)),
                apart((0, 3), (0, 2)),
                apart((0, 4), (0, 3)),
                apart((0, 5), (0, 4)),
            ],
        }]
    );
}

#[test]
fn area_numbers_with_nothing_given_post_nothing() {
    let mut s = LogicPadSolver::new(2, 2, None);
    assert_eq!(s.add_area_numbers(None, None, None), Ok(()));
    assert_eq!(s.commands(), &initial());
}

#[test]
fn duplicate_area_number_is_refused() {
    let mut s = LogicPadSolver::new(2, 2, None);
    let clues =
        [AreaNumberTile { y: 1, x: 0, number: 3 }, AreaNumberTile { y: 1, x: 0, number: 3 }];
    let r = s.add_area_numbers(Some(&clues), Some(2), None);
    assert_eq!(r, Err(SolveError::DuplicateAreaNumber));
    assert_eq!(r.unwrap_err().message(), "duplicate area number");
    assert_eq!(s.commands(), &initial());
}

#[test]
fn area_numbers_off_by_use_a_domain_or_a_constant() {
    let mut s = LogicPadSolver::new(1, 2, Some(2));
    let clues =
        [AreaNumberTile { y: 0, x: 0, number: 5 }, AreaNumberTile { y: 0, x: 1, number: 2 }];
    assert_eq!(s.add_area_numbers(Some(&clues), None, None), Ok(()));
    let var = IntVar { grid: 0, y: 0, x: 0 };
    assert_eq!(
        added(&s),
        &[
            Command::NewIntVarFromDomain { var, domain: vec![3, 7] },
            Command::GraphDivision {
                sizes: vec![Some(IntExpr::cell(0, 0, 0)), Some(num(4))],
                edges: vec![(1, 0)],
                cuts: vec![apart((0, 1), (0, 0))],
            },
        ]
    );
}

#[test]
fn region_sizes_give_every_cell_a_size_variable() {
    let mut s = LogicPadSolver::new(2, 1, Some(1));
    let clues = [AreaNumberTile { y: 1, x: 0, number: 2 }];
    assert_eq!(s.add_area_numbers(Some(&clues), Some(4), Some(3)), Ok(()));
    let size = |y: usize| IntExpr::cell(0, y, 0);
    assert_eq!(
        added(&s),
        &[
            Command::NewIntVar { var: IntVar { grid: 0, y: 0, x: 0 }, lo: 1, hi: 2 },
            post(BoolExpr::imp(w(0, 0), BoolExpr::eq(size(0), num(4)))),
            post(BoolExpr::imp(b(0, 0), BoolExpr::eq(size(0), num(3)))),
            Command::NewIntVar { var: IntVar { grid: 0, y: 1, x: 0 }, lo: 1, hi: 2 },
            post(BoolExpr::imp(w(1, 0), BoolExpr::eq(size(1), num(4)))),
            post(BoolExpr::imp(b(1, 0), BoolExpr::eq(size(1), num(3)))),
            post(BoolExpr::or2(BoolExpr::eq(size(1), num(3)), BoolExpr::eq(size(1), num(1)))),
            Command::GraphDivision {
                sizes: vec![Some(size(0)), Some(size(1))],
                edges: vec![(1, 0)],
                cuts: vec![apart((1, 0), (0, 0))],
            },
        ]
    );
}

#[test]
fn second_use_of_area_numbers_names_another_grid() {
    let mut s = LogicPadSolver::new(1, 1, None);
    assert_eq!(s.add_area_numbers(None, Some(1), None), Ok(()));
    assert_eq!(s.add_area_numbers(None, Some(1), None), Ok(()));
    let cmds = added(&s);
    assert_eq!(cmds[0], Command::NewIntVar { var: IntVar { grid: 0, y: 0, x: 0 }, lo: 1, hi: 1 });
    assert_eq!(cmds[3], Command::NewIntVar { var: IntVar { grid: 1, y: 0, x: 0 }, lo: 1, hi: 1 });
}

fn letter(y: usize, x: usize, letter: &str) -> LetterTile {
    LetterTile { y, x, letter: letter.to_string() }
}

fn blank(y: usize, x: usize) -> BoolExpr {
    BoolExpr::and2(BoolExpr::not(b(y, x)), BoolExpr::not(w(y, x)))
}

fn group_pair(p: (usize, usize), q: (usize, usize)) -> Command {
    let id = |c: (usize, usize)| IntExpr::cell(0, c.0, c.1);
    post(BoolExpr::imp(
        BoolExpr::or2(BoolExpr::ne(id(p), num(-1)), BoolExpr::ne(id(q), num(-1))),
        BoolExpr::or(vec![
            blank(p.0, p.1),
            blank(q.0, q.1),
            BoolExpr::iff(
                BoolExpr::eq(id(p), id(q)),
                BoolExpr::and2(
                    BoolExpr::iff(b(p.0, p.1), b(q.0, q.1)),
                    BoolExpr::iff(w(p.0, p.1), w(q.0, q.1)),
                ),
            ),
        ]),
    ))
}

#[test]
fn letters_are_grouped_in_their_order() {
    let mut s = LogicPadSolver::new(2, 3, None);
    s.add_letters(&[letter(1, 1, "B"), letter(0, 2, "A"), letter(0, 0, "A")]);
    let cmds = added(&s);
    assert_eq!(cmds.len(), 1 + 6 + 7 + 5);
    assert_eq!(cmds[0], Command::NewIntGrid { grid: 0, lo: -1, hi: 1 });
    assert_eq!(
        cmds[1],
        post(BoolExpr::imp(blank(0, 0), BoolExpr::eq(IntExpr::cell(0, 0, 0), num(-1))))
    );
    assert_eq!(
        cmds[6],
        post(BoolExpr::imp(blank(1, 2), BoolExpr::eq(IntExpr::cell(0, 1, 2), num(-1))))
    );
    assert_eq!(
        &cmds[7..14],
        &[
            group_pair((0, 1), (0, 0)),
            group_pair((0, 2), (0, 1)),
            group_pair((1, 0), (0, 0)),
            group_pair((1, 1), (0, 1)),
            group_pair((1, 1), (1, 0)),
            group_pair((1, 2), (0, 2)),
            group_pair((1, 2), (1, 1)),
        ]
    );
    assert_eq!(
        &cmds[14..],
        &[
            post(BoolExpr::eq(IntExpr::cell(0, 0, 0), num(0))),
            post(BoolExpr::eq(IntExpr::cell(0, 0, 2), num(0))),
            Command::Connected(GridExpr::IntEquals { grid: 0, value: 0 }),
            post(BoolExpr::eq(IntExpr::cell(0, 1, 1), num(1))),
            Command::Connected(GridExpr::IntEquals { grid: 0, value: 1 }),
        ]
    );
}

#[test]
fn letters_are_ordered_by_their_text() {
    let mut s = LogicPadSolver::new(1, 4, None);
    s.add_letters(&[letter(0, 0, "b"), letter(0, 1, "ab"), letter(0, 2, "a"), letter(0, 3, "B")]);
    let cmds = added(&s);
    assert_eq!(cmds[0], Command::NewIntGrid { grid: 0, lo: -1, hi: 3 });
    let n = cmds.len();
    // "B" < "a" < "ab" < "b".
    assert_eq!(
        &cmds[n - 8..],
        &[
            post(BoolExpr::eq(IntExpr::cell(0, 0, 3), num(0))),
            Command::Connected(GridExpr::IntEquals { grid: 0, value: 0 }),
            post(BoolExpr::eq(IntExpr::cell(0, 0, 2), num(1))),
            Command::Connected(GridExpr::IntEquals { grid: 0, value: 1 }),
            post(BoolExpr::eq(IntExpr::cell(0, 0, 1), num(2))),
            Command::Connected(GridExpr::IntEquals { grid: 0, value: 2 }),
            post(BoolExpr::eq(IntExpr::cell(0, 0, 0), num(3))),
            Command::Connected(GridExpr::IntEquals { grid: 0, value: 3 }),
        ]
    );
}

#[test]
fn no_letters_still_declare_the_groups() {
    let mut s = LogicPadSolver::new(1, 1, None);
    s.add_letters(&[]);
    assert_eq!(
        added(&s),
        &[
            Command::NewIntGrid { grid: 0, lo: -1, hi: -1 },
            post(BoolExpr::imp(blank(0, 0), BoolExpr::eq(IntExpr::cell(0, 0, 0), num(-1)))),
        ]
    );
}

#[test]
fn lotus_on_invalid_position_is_refused() {
    let mut s = LogicPadSolver::new(3, 3, None);
    let r = s.add_lotuses(&[LotusTile { y: 1, x: 2, orientation: Orientation::Up }]);
    assert_eq!(r, Err(SolveError::LotusInvalidPosition));
    assert_eq!(r.unwrap_err().message(), "lotus on invalid position");
    assert_eq!(s.commands(), &initial());
    for (y, x, orientation) in [
        (2, 1, Orientation::Left),
        (2, 1, Orientation::Right),
        (1, 2, Orientation::Down),
        (2, 1, Orientation::UpLeft),
        (1, 2, Orientation::UpRight),
        (1, 1, Orientation::DownLeft),
        (2, 1, Orientation::DownRight),
    ] {
        let r = s.add_lotuses(&[LotusTile { y, x, orientation }]);
        assert_eq!(r, Err(SolveError::LotusInvalidPosition));
    }
    assert_eq!(s.commands(), &initial());
}

#[test]
fn refused_lotus_leaves_the_session_as_it_was() {
    let mut s = LogicPadSolver::new(2, 2, None);
    let r = s.add_lotuses(&[
        LotusTile { y: 0, x: 0, orientation: Orientation::Up },
        LotusTile { y: 1, x: 0, orientation: Orientation::Up },
    ]);
    assert_eq!(r, Err(SolveError::LotusInvalidPosition));
    assert_eq!(s.commands(), &initial());
    let r = s.add_lotuses(&[
        LotusTile { y: 0, x: 0, orientation: Orientation::Up },
        LotusTile { y: 4, x: 0, orientation: Orientation::Up },
    ]);
    assert_eq!(r, Err(SolveError::LotusOutOfBounds));
    assert_eq!(r.unwrap_err().message(), "lotus out of bounds");
    assert_eq!(s.commands(), &initial());
}

#[test]
fn galaxy_on_a_corner_is_refused() {
    let mut s = LogicPadSolver::new(2, 2, None);
    let r = s.add_galaxies(&[GalaxyTile { y: 1, x: 1 }]);
    assert_eq!(r, Err(SolveError::GalaxyOnCorner));
    assert_eq!(r.unwrap_err().message(), "galaxies on corners may cause unexpected behavior");
    let r = s.add_galaxies(&[GalaxyTile { y: 0, x: 4 }]);
    assert_eq!(r, Err(SolveError::LotusOutOfBounds));
    assert_eq!(s.commands(), &initial());
}

fn pair(g: usize, p: (usize, usize), q: (usize, usize)) -> Vec<Command> {
    let blk = |c: (usize, usize)| BoolExpr::var(g, c.0, c.1);
    let outside = || BoolExpr::or2(BoolExpr::not(blk(p)), BoolExpr::not(blk(q)));
    vec![
        post(BoolExpr::imp(
            BoolExpr::and2(b(p.0, p.1), b(q.0, q.1)),
            BoolExpr::iff(blk(p), blk(q)),
        )),
        post(BoolExpr::imp(
            BoolExpr::and2(w(p.0, p.1), w(q.0, q.1)),
            BoolExpr::iff(blk(p), blk(q)),
        )),
        post(BoolExpr::imp(BoolExpr::xor(b(p.0, p.1), b(q.0, q.1)), outside())),
        post(BoolExpr::imp(BoolExpr::xor(w(p.0, p.1), w(q.0, q.1)), outside())),
    ]
}

#[test]
fn galaxy_between_two_cells() {
    let mut s = LogicPadSolver::new(1, 3, None);
    // The centre lies between the cells (0,0) and (0,1): the point (0,1)
    // of the half-cell grid.
    assert_eq!(s.add_galaxies(&[GalaxyTile { y: 0, x: 1 }]), Ok(()));
    let blk = |x: usize| BoolExpr::var(2, 0, x);
    let mut expected = vec![
        Command::NewBoolGrid { grid: 2 },
        Command::Connected(GridExpr::Bools { grid: 2 }),
        post(blk(0)),
    ];
    expected.extend(pair(2, (0, 1), (0, 0)));
    expected.extend(pair(2, (0, 2), (0, 1)));
    // The image of (0,x) is (0, 1 - x): (0,0) and (0,1) are images of each
    // other, the image of (0,2) is off the board.
    expected.push(post(BoolExpr::iff(blk(0), blk(1))));
    expected.push(post(BoolExpr::not(blk(2))));
    assert_eq!(added(&s), &expected[..]);
}

#[test]
fn lotus_with_a_vertical_axis() {
    let mut s = LogicPadSolver::new(1, 3, None);
    // The axis runs through the middle of the cell (0,1).
    assert_eq!(s.add_lotuses(&[LotusTile { y: 0, x: 2, orientation: Orientation::Down }]), Ok(()));
    let blk = |x: usize| BoolExpr::var(2, 0, x);
    let cmds = added(&s);
    assert_eq!(cmds[2], post(blk(1)));
    assert_eq!(&cmds[cmds.len() - 1..], &[post(BoolExpr::iff(blk(0), blk(2)))]);
    assert_eq!(cmds.len(), 3 + 8 + 1);
}

#[test]
fn lotus_with_diagonal_axes() {
    let mut s = LogicPadSolver::new(2, 2, None);
    assert_eq!(
        s.add_lotus_or_galaxy(0, 0, 0, 0, Some(Orientation::DownRight)),
        Ok(())
    );
    let blk = |y: usize, x: usize| BoolExpr::var(2, y, x);
    let cmds = added(&s);
    // The image of (y,x) is (x,y).
    assert_eq!(&cmds[cmds.len() - 1..], &[post(BoolExpr::iff(blk(0, 1), blk(1, 0)))]);
    let mut t = LogicPadSolver::new(2, 2, None);
    assert_eq!(t.add_lotus_or_galaxy(1, 1, 2, 2, Some(Orientation::UpRight)), Ok(()));
    let cmds = added(&t);
    // The image of (y,x) is (2 - x, 2 - y): only (1,1) stays on the board.
    let n = cmds.len();
    assert_eq!(
        &cmds[n - 3..],
        &[
            post(BoolExpr::not(blk(0, 0))),
            post(BoolExpr::not(blk(0, 1))),
            post(BoolExpr::not(blk(1, 0))),
        ]
    );
}

#[test]
fn second_region_names_another_grid() {
    let mut s = LogicPadSolver::new(1, 1, None);
    assert_eq!(s.add_galaxies(&[GalaxyTile { y: 0, x: 0 }, GalaxyTile { y: 0, x: 0 }]), Ok(()));
    assert_eq!(
        added(&s),
        &[
            Command::NewBoolGrid { grid: 2 },
            Command::Connected(GridExpr::Bools { grid: 2 }),
            post(BoolExpr::var(2, 0, 0)),
            Command::NewBoolGrid { grid: 3 },
            Command::Connected(GridExpr::Bools { grid: 3 }),
            post(BoolExpr::var(3, 0, 0)),
        ]
    );
}

#[test]
fn expressions_can_be_copied() {
    let e = BoolExpr::imp(
        BoolExpr::or(vec![w(0, 0), BoolExpr::not(b(1, 2))]),
        BoolExpr::le(
            IntExpr::sum(count(vec![w(0, 1)]), IntExpr::consecutive_prefix_true(vec![b(0, 0)])),
            IntExpr::cell(3, 1, 1),
        ),
    );
    assert_eq!(e.duplicate(), e);
}

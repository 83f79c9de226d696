use logicpad_solver::answer::{Answer, Query};
use logicpad_solver::compile::{
    area_is_fit, area_is_taken, cells_are_counted, check_puzzle, refused,
    rule_is_fit, solve, tiles_reached,
};
use logicpad_solver::error::SolveError;
use logicpad_solver::expr::{BoolExpr, BoolVar, Command, ConstraintType, GridExpr, IntExpr, IntVar};
use logicpad_solver::puzzle::{
    AreaNumberTile, Color, Connection, DartTile, GalaxyTile, LetterTile, LotusTile,
    MinesweeperTile, Orientation, Puzzle, Rule, Tile, ViewpointTile,
};
use logicpad_solver::solver::LogicPadSolver;

fn open_tile() -> Tile {
    Tile { exists: true, fixed: false, color: Color::Undecided }
}

fn fixed(color: Color) -> Tile {
    Tile { exists: true, fixed: true, color }
}

fn missing() -> Tile {
    Tile { exists: false, fixed: false, color: Color::Undecided }
}

fn board(height: usize, width: usize, rules: Vec<Rule>) -> Puzzle {
    Puzzle {
        width,
        height,
        tiles: vec![vec![open_tile(); width]; height],
        rules,
        connections: vec![],
    }
}

fn compile(p: &Puzzle) -> Result<LogicPadSolver, SolveError> {
    assert!(check_puzzle(p));
    solve(p, false).map(|(s, _)| s)
}

fn error_of(p: &Puzzle) -> SolveError {
    compile(p).err().expect("the puzzle is refused")
}

/// The value of an integer expression under an assignment.
fn value(e: &IntExpr, bools: &dyn Fn(BoolVar) -> bool, ints: &dyn Fn(IntVar) -> i64) -> i64 {
    match e {
        IntExpr::Const(c) => *c as i64,
        IntExpr::Var(v) => ints(*v),
        IntExpr::CountTrue(es) => es.iter().filter(|e| holds(e, bools, ints)).count() as i64,
        IntExpr::ConsecutivePrefixTrue(es) => {
            es.iter().take_while(|e| holds(e, bools, ints)).count() as i64
        }
        IntExpr::Sum(a, b) => value(a, bools, ints) + value(b, bools, ints),
    }
}

/// Whether a boolean expression is true under an assignment.
fn holds(e: &BoolExpr, bools: &dyn Fn(BoolVar) -> bool, ints: &dyn Fn(IntVar) -> i64) -> bool {
    match e {
        BoolExpr::Var(v) => bools(*v),
        BoolExpr::Not(a) => !holds(a, bools, ints),
        BoolExpr::And(es) => es.iter().all(|e| holds(e, bools, ints)),
        BoolExpr::Or(es) => es.iter().any(|e| holds(e, bools, ints)),
        BoolExpr::Xor(a, b) => holds(a, bools, ints) != holds(b, bools, ints),
        BoolExpr::Iff(a, b) => holds(a, bools, ints) == holds(b, bools, ints),
        BoolExpr::Imp(a, b) => !holds(a, bools, ints) || holds(b, bools, ints),
        BoolExpr::Eq(a, b) => value(a, bools, ints) == value(b, bools, ints),
        BoolExpr::Ne(a, b) => value(a, bools, ints) != value(b, bools, ints),
        BoolExpr::Le(a, b) => value(a, bools, ints) <= value(b, bools, ints),
    }
}

/// Whether every posted expression of a program is true for a colouring:
/// `colors[y][x]` is 'W', 'B' or '.' for a cell without a colour.
fn satisfied(s: &LogicPadSolver, colors: &[&str]) -> bool {
    let bools = |v: BoolVar| {
        let c = colors[v.y].as_bytes()[v.x];
        (v.grid == 0 && c == b'W') || (v.grid == 1 && c == b'B')
    };
    let ints = |_: IntVar| 0;
    s.commands().iter().all(|c| match c {
        Command::Post(e) => holds(e, &bools, &ints),
        _ => true,
    })
}

#[test]
fn single_open_tile_without_rules() {
    let p = board(1, 1, vec![]);
    let (s, q) = solve(&p, false).unwrap();
    assert_eq!(q, Query::Model);
    assert_eq!(
        s.commands(),
        &vec![
            Command::NewBoolGrid { grid: 0 },
            Command::NewBoolGrid { grid: 1 },
            Command::AnswerKey { grid: 0 },
            Command::AnswerKey { grid: 1 },
            Command::Post(BoolExpr::xor(BoolExpr::var(1, 0, 0), BoolExpr::var(0, 0, 0))),
        ]
    );
    assert!(satisfied(&s, &["W"]));
    assert!(satisfied(&s, &["B"]));
    assert!(!satisfied(&s, &["."]));
    let (t, q) = solve(&p, true).unwrap();
    assert_eq!(q, Query::Facts);
    assert_eq!(t.commands(), s.commands());
    // Both colours are models, so no colour is a fact.
    let facts = Answer::Facts { is_white: vec![vec![None]], is_black: vec![vec![None]] };
    assert_eq!(t.solve(&facts), Some(vec![vec![None]]));
}

#[test]
fn models_colour_the_tiles_that_are_there() {
    let mut p = board(1, 3, vec![]);
    p.tiles[0][1] = missing();
    p.tiles[0][2] = fixed(Color::Black);
    let s = compile(&p).unwrap();
    let letters = ['W', 'B', '.'];
    let mut models = vec![];
    for a in letters {
        for b in letters {
            for c in letters {
                let row: String = [a, b, c].iter().collect();
                if satisfied(&s, &[&row]) {
                    models.push(row);
                }
            }
        }
    }
    assert_eq!(models, vec!["W.B".to_string(), "B.B".to_string()]);
}

#[test]
fn off_by_rules_are_found_first() {
    let p = board(1, 1, vec![Rule::OffByX { number: 1 }, Rule::OffByX { number: 2 }]);
    assert_eq!(error_of(&p), SolveError::MultipleOffByX);
    assert_eq!(error_of(&p).message(), "multiple offByX rules");
    let p = board(1, 1, vec![Rule::OffByX { number: 0 }]);
    assert_eq!(error_of(&p), SolveError::OffByXNotPositive);
    assert_eq!(error_of(&p).message(), "offByX with non-positive number");
    let p = board(1, 1, vec![Rule::OffByX { number: -3 }]);
    assert_eq!(error_of(&p), SolveError::OffByXNotPositive);
    // A second rule is refused before its number is looked at.
    let p = board(1, 1, vec![Rule::OffByX { number: 1 }, Rule::OffByX { number: 0 }]);
    assert_eq!(error_of(&p), SolveError::MultipleOffByX);
    // Clues that are off are refused before a gray tile that is fixed.
    let mut p = board(1, 1, vec![Rule::OffByX { number: 0 }]);
    p.tiles[0][0] = fixed(Color::Undecided);
    assert_eq!(error_of(&p), SolveError::OffByXNotPositive);
}

#[test]
fn off_by_rule_reaches_every_numeric_clue() {
    let p = board(
        1,
        2,
        vec![Rule::Minesweeper { tiles: vec![MinesweeperTile { y: 0, x: 0, number: 2 }] }, Rule::OffByX { number: 1 }],
    );
    let s = compile(&p).unwrap();
    assert_eq!(s.off_by(), Some(1));
    let cells = || IntExpr::count_true(vec![BoolExpr::var(1, 0, 0), BoolExpr::var(1, 0, 1)]);
    assert_eq!(
        s.commands()[6],
        Command::Post(BoolExpr::imp(
            BoolExpr::var(0, 0, 0),
            BoolExpr::or2(
                BoolExpr::eq(cells(), IntExpr::constant(3)),
                BoolExpr::eq(cells(), IntExpr::constant(1)),
            )
        ))
    );
}

#[test]
fn gray_fixed_tile_is_refused_before_the_rules() {
    let mut p = board(1, 2, vec![Rule::ConnectAll { color: Color::Undecided }]);
    p.tiles[0][1] = fixed(Color::Undecided);
    assert_eq!(error_of(&p), SolveError::GrayTileFixed);
    let p = board(1, 2, vec![Rule::ConnectAll { color: Color::Undecided }]);
    assert_eq!(error_of(&p), SolveError::ConnectAllGray);
}

#[test]
fn clues_on_missing_tiles_are_refused() {
    let with = |rule: Rule| {
        let mut p = board(2, 2, vec![rule]);
        p.tiles[1][0] = missing();
        p
    };
    let p = with(Rule::Minesweeper { tiles: vec![MinesweeperTile { y: 1, x: 0, number: 1 }] });
    assert_eq!(error_of(&p), SolveError::MinesweeperOnMissingTile);
    assert_eq!(error_of(&p).message(), "minesweeper tile on non-existing tile");
    let p = with(Rule::Letter { tiles: vec![LetterTile { y: 1, x: 0, letter: "A".to_string() }] });
    assert_eq!(error_of(&p), SolveError::LetterOnMissingTile);
    assert_eq!(error_of(&p).message(), "letter tile on non-existing tile");
    let p = with(Rule::Dart {
        tiles: vec![DartTile { y: 1, x: 0, orientation: Orientation::Up, number: 1 }],
    });
    assert_eq!(error_of(&p), SolveError::DartOnMissingTile);
    assert_eq!(error_of(&p).message(), "dart tile on non-existing tile");
    let p = with(Rule::Viewpoint { tiles: vec![ViewpointTile { y: 1, x: 0, number: 1 }] });
    assert_eq!(error_of(&p), SolveError::ViewpointOnMissingTile);
    assert_eq!(error_of(&p).message(), "viewpoint tile on non-existing tile");
    // An area clue on a missing tile is taken.
    let p = with(Rule::AreaNumber { tiles: vec![AreaNumberTile { y: 1, x: 0, number: 1 }] });
    assert!(compile(&p).is_ok());
}

#[test]
fn the_first_rule_that_is_refused_gives_the_error() {
    let p = board(
        2,
        2,
        vec![
            Rule::Lotus { tiles: vec![LotusTile { y: 1, x: 0, orientation: Orientation::Up }] },
            Rule::Galaxy { tiles: vec![GalaxyTile { y: 1, x: 1 }] },
        ],
    );
    assert_eq!(error_of(&p), SolveError::LotusInvalidPosition);
    let p = board(
        2,
        2,
        vec![
            Rule::Galaxy { tiles: vec![GalaxyTile { y: 1, x: 1 }] },
            Rule::Lotus { tiles: vec![LotusTile { y: 1, x: 0, orientation: Orientation::Up }] },
        ],
    );
    assert_eq!(error_of(&p), SolveError::GalaxyOnCorner);
    // The sizes of regions are looked at after all other rules.
    let p = board(
        2,
        2,
        vec![
            Rule::AreaNumber { tiles: vec![] },
            Rule::AreaNumber { tiles: vec![] },
            Rule::Galaxy { tiles: vec![GalaxyTile { y: 1, x: 1 }] },
        ],
    );
    assert_eq!(error_of(&p), SolveError::GalaxyOnCorner);
}

#[test]
fn sizes_of_regions_are_given_once() {
    let p = board(1, 1, vec![Rule::AreaNumber { tiles: vec![] }, Rule::AreaNumber { tiles: vec![] }]);
    assert_eq!(error_of(&p), SolveError::MultipleAreaNumberRules);
    assert_eq!(error_of(&p).message(), "multiple area number rules");
    let light = || Rule::RegionArea { color: Color::White, size: 2 };
    let dark = || Rule::RegionArea { color: Color::Black, size: 2 };
    let p = board(1, 1, vec![light(), dark(), light()]);
    assert_eq!(error_of(&p), SolveError::MultipleLightAreaSizeRules);
    assert_eq!(error_of(&p).message(), "multiple light area size rules");
    let p = board(1, 1, vec![dark(), light(), dark()]);
    assert_eq!(error_of(&p), SolveError::MultipleDarkAreaSizeRules);
    assert_eq!(error_of(&p).message(), "multiple dark area size rules");
    let clue = |x: usize| AreaNumberTile { y: 0, x, number: 1 };
    let p = board(1, 2, vec![light(), Rule::AreaNumber { tiles: vec![clue(1), clue(1)] }]);
    assert_eq!(error_of(&p), SolveError::DuplicateAreaNumber);
}

#[test]
fn rules_are_posted_in_their_order_and_sizes_last() {
    let p = Puzzle {
        width: 2,
        height: 1,
        tiles: vec![vec![open_tile(), open_tile()]],
        rules: vec![
            Rule::RegionArea { color: Color::White, size: 1 },
            Rule::CellCount { color: Color::Black, count: 1 },
            Rule::SameShape { color: Color::White },
            Rule::UniqueShape { color: Color::Black },
            Rule::ConnectAll { color: Color::Black },
        ],
        connections: vec![Connection { y1: 0, x1: 0, y2: 0, x2: 1 }],
    };
    let s = compile(&p).unwrap();
    let cmds = s.commands();
    let w = |x: usize| BoolExpr::var(0, 0, x);
    let b = |x: usize| BoolExpr::var(1, 0, x);
    assert_eq!(cmds[4], Command::Post(BoolExpr::xor(b(0), w(0))));
    assert_eq!(cmds[5], Command::Post(BoolExpr::xor(b(1), w(1))));
    assert_eq!(cmds[6], Command::Post(BoolExpr::iff(w(0), w(1))));
    assert_eq!(cmds[7], Command::Post(BoolExpr::iff(b(0), b(1))));
    assert_eq!(
        cmds[8],
        Command::Post(BoolExpr::eq(IntExpr::count_true(vec![b(0), b(1)]), IntExpr::constant(1)))
    );
    assert_eq!(cmds[9], Command::Shapes { kind: ConstraintType::AllEqual, grid: 0 });
    assert_eq!(cmds[10], Command::Shapes { kind: ConstraintType::AllDifferent, grid: 1 });
    assert_eq!(cmds[11], Command::Connected(GridExpr::Bools { grid: 1 }));
    assert_eq!(cmds[12], Command::NewIntVar { var: IntVar { grid: 0, y: 0, x: 0 }, lo: 1, hi: 2 });
    assert!(matches!(cmds[cmds.len() - 1], Command::GraphDivision { .. }));
    assert_eq!(cmds.len(), 12 + 2 * 2 + 1);
}

#[test]
fn minimal_minesweeper() {
    let mut p = board(
        3,
        3,
        vec![Rule::Minesweeper { tiles: vec![MinesweeperTile { y: 1, x: 1, number: 2 }] }],
    );
    p.tiles[1][1] = fixed(Color::White);
    let s = compile(&p).unwrap();
    // A colouring with a white centre is a model if and only if two of the
    // other eight cells are black.
    let mut models = 0;
    for bits in 0u32..256 {
        let mut cells = vec![];
        for i in 0..8 {
            cells.push(if bits & (1 << i) != 0 { 'B' } else { 'W' });
        }
        cells.insert(4, 'W');
        let rows: Vec<String> = cells.chunks(3).map(|r| r.iter().collect()).collect();
        let rows: Vec<&str> = rows.iter().map(|r| r.as_str()).collect();
        let ok = satisfied(&s, &rows);
        assert_eq!(ok, bits.count_ones() == 2);
        if ok {
            models += 1;
        }
    }
    assert_eq!(models, 28);
    assert!(!satisfied(&s, &["WWW", "WBW", "WWW"]));
    // Each corner is white in some model and black in another: no colour of
    // a corner is a fact, and only the centre is coloured by the facts.
    let n: Option<bool> = None;
    let facts = Answer::Facts {
        is_white: vec![vec![n, n, n], vec![n, Some(true), n], vec![n, n, n]],
        is_black: vec![vec![n, n, n], vec![n, Some(false), n], vec![n, n, n]],
    };
    let t = solve(&p, true).unwrap().0;
    let u: Option<Color> = None;
    assert_eq!(
        t.solve(&facts),
        Some(vec![vec![u, u, u], vec![u, Some(Color::White), u], vec![u, u, u]])
    );
}

#[test]
fn off_by_minesweeper_counts_one_or_three() {
    let mut p = board(
        1,
        4,
        vec![
            Rule::OffByX { number: 1 },
            Rule::Minesweeper { tiles: vec![MinesweeperTile { y: 0, x: 1, number: 2 }] },
        ],
    );
    p.tiles[0][1] = fixed(Color::Black);
    let s = compile(&p).unwrap();
    // The clue is black: it counts the white cells among the first three.
    assert!(satisfied(&s, &["WBBW"]));
    assert!(satisfied(&s, &["BBWB"]));
    assert!(!satisfied(&s, &["WBWB"]));
    assert!(!satisfied(&s, &["BBBW"]));
    let mut q = board(
        2,
        2,
        vec![
            Rule::OffByX { number: 1 },
            Rule::Minesweeper { tiles: vec![MinesweeperTile { y: 0, x: 0, number: 2 }] },
        ],
    );
    q.tiles[0][0] = fixed(Color::White);
    let s = compile(&q).unwrap();
    assert!(satisfied(&s, &["WB", "WW"]));
    assert!(satisfied(&s, &["WB", "BB"]));
    assert!(!satisfied(&s, &["WB", "BW"]));
    assert!(!satisfied(&s, &["WW", "WW"]));
}

#[test]
fn both_colours_connected_refuse_the_checkerboard() {
    let mut p = board(
        2,
        2,
        vec![Rule::ConnectAll { color: Color::White }, Rule::ConnectAll { color: Color::Black }],
    );
    let s = compile(&p).unwrap();
    assert!(!satisfied(&s, &["WB", "BW"]));
    assert!(!satisfied(&s, &["BW", "WB"]));
    assert!(satisfied(&s, &["WW", "BB"]));
    assert!(satisfied(&s, &["WB", "BB"]));
    p.tiles = vec![
        vec![fixed(Color::White), fixed(Color::Black)],
        vec![fixed(Color::Black), fixed(Color::White)],
    ];
    let s = compile(&p).unwrap();
    // No colouring meets the tiles and the rules: the solver finds none.
    for a in ["WW", "WB", "BW", "BB"] {
        for b in ["WW", "WB", "BW", "BB"] {
            assert!(!satisfied(&s, &[a, b]));
        }
    }
    assert_eq!(s.solve(&Answer::Unsat), None);
}

#[test]
fn one_connect_all_rule_asks_nothing_besides() {
    let p = board(2, 2, vec![Rule::ConnectAll { color: Color::White }]);
    let s = compile(&p).unwrap();
    assert!(satisfied(&s, &["WB", "BW"]));
    assert_eq!(s.commands().len(), 4 + 4 + 1);
}

#[test]
fn rim_changes_at_most_twice() {
    let p = board(
        3,
        3,
        vec![Rule::ConnectAll { color: Color::White }, Rule::ConnectAll { color: Color::Black }],
    );
    let s = compile(&p).unwrap();
    assert!(satisfied(&s, &["WWW", "WBB", "WBB"]));
    assert!(!satisfied(&s, &["WBW", "WBW", "WBW"]));
    // The last corner counts: it is a change on the rim.
    assert!(!satisfied(&s, &["WWW", "BWW", "WWB"]));
}

#[test]
fn area_numbers_three_and_three() {
    let mut p = board(
        1,
        6,
        vec![Rule::AreaNumber {
            tiles: vec![
                AreaNumberTile { y: 0, x: 0, number: 3 },
                AreaNumberTile { y: 0, x: 3, number: 3 },
            ],
        }],
    );
    p.tiles[0][0] = fixed(Color::White);
    let s = compile(&p).unwrap();
    let last = &s.commands()[s.commands().len() - 1];
    match last {
        Command::GraphDivision { sizes, edges, cuts } => {
            let three = || Some(IntExpr::constant(3));
            assert_eq!(sizes, &vec![three(), None, None, three(), None, None]);
            assert_eq!(edges, &vec![(1, 0), (2, 1), (3, 2), (4, 3), (5, 4)]);
            assert_eq!(cuts.len(), 5);
            // In the forced solution the regions are cut between the third
            // and the fourth cell, and nowhere else.
            let bools = |v: BoolVar| (v.grid == 0) == (v.x < 3);
            let ints = |_: IntVar| 0;
            let cut: Vec<bool> = cuts.iter().map(|c| holds(c, &bools, &ints)).collect();
            assert_eq!(cut, vec![false, false, true, false, false]);
        }
        _ => panic!("the sizes of regions come last"),
    }
    let t = Some(true);
    let f = Some(false);
    let facts = Answer::Facts {
        is_white: vec![vec![t, t, t, f, f, f]],
        is_black: vec![vec![f, f, f, t, t, t]],
    };
    let w = Some(Color::White);
    let b = Some(Color::Black);
    assert_eq!(s.solve(&facts), Some(vec![vec![w, w, w, b, b, b]]));
}

#[test]
fn unique_shape_puzzle_posts_the_propagator() {
    let p = board(
        4,
        4,
        vec![
            Rule::RegionArea { color: Color::White, size: 4 },
            Rule::UniqueShape { color: Color::White },
            Rule::ConnectAll { color: Color::Black },
        ],
    );
    let s = compile(&p).unwrap();
    let cmds = s.commands();
    assert_eq!(cmds[4 + 16], Command::Shapes { kind: ConstraintType::AllDifferent, grid: 0 });
    assert_eq!(cmds[4 + 17], Command::Connected(GridExpr::Bools { grid: 1 }));
    assert_eq!(
        cmds[4 + 18],
        Command::NewIntVar { var: IntVar { grid: 0, y: 0, x: 0 }, lo: 1, hi: 16 }
    );
    assert_eq!(
        cmds[4 + 19],
        Command::Post(BoolExpr::imp(
            BoolExpr::var(0, 0, 0),
            BoolExpr::eq(IntExpr::cell(0, 0, 0), IntExpr::constant(4))
        ))
    );
    let q = board(
        4,
        4,
        vec![
            Rule::RegionArea { color: Color::White, size: 4 },
            Rule::RegionArea { color: Color::White, size: 4 },
            Rule::UniqueShape { color: Color::White },
            Rule::ConnectAll { color: Color::Black },
        ],
    );
    assert_eq!(error_of(&q), SolveError::MultipleLightAreaSizeRules);
}

#[test]
fn letter_groups_puzzle() {
    let letter = |y: usize, x: usize, l: &str| LetterTile { y, x, letter: l.to_string() };
    let p = board(
        2,
        3,
        vec![Rule::Letter { tiles: vec![letter(0, 0, "A"), letter(0, 2, "A"), letter(1, 1, "B")] }],
    );
    let s = compile(&p).unwrap();
    let cmds = s.commands();
    assert_eq!(cmds[4 + 6], Command::NewIntGrid { grid: 0, lo: -1, hi: 1 });
    let n = cmds.len();
    assert_eq!(cmds[n - 3], Command::Connected(GridExpr::IntEquals { grid: 0, value: 0 }));
    assert_eq!(cmds[n - 1], Command::Connected(GridExpr::IntEquals { grid: 0, value: 1 }));
    // The groups of a colouring in which the letters A share the first row,
    // and the letter B has the other colour.
    let colors = ["WWW", "BBB"];
    let bools = |v: BoolVar| {
        let c = colors[v.y].as_bytes()[v.x];
        (v.grid == 0 && c == b'W') || (v.grid == 1 && c == b'B')
    };
    let groups = |v: IntVar| if v.y == 0 { 0 } else { 1 };
    assert!(cmds.iter().all(|c| match c {
        Command::Post(e) => holds(e, &bools, &groups),
        _ => true,
    }));
    // The cell between the two letters A cannot be in the group of B.
    let wrong = |v: IntVar| if v.y == 0 && v.x != 1 { 0 } else { 1 };
    assert!(!cmds.iter().all(|c| match c {
        Command::Post(e) => holds(e, &bools, &wrong),
        _ => true,
    }));
}

#[test]
fn two_letters_cannot_share_a_region() {
    let letter = |y: usize, x: usize, l: &str| LetterTile { y, x, letter: l.to_string() };
    let p = board(2, 3, vec![Rule::Letter { tiles: vec![letter(0, 0, "A"), letter(0, 2, "B")] }]);
    let s = compile(&p).unwrap();
    // One white region in the shape of a U around a black cell.
    let colors = ["WBW", "WWW"];
    let bools = |v: BoolVar| {
        let c = colors[v.y].as_bytes()[v.x];
        (v.grid == 0 && c == b'W') || (v.grid == 1 && c == b'B')
    };
    let met = |groups: &dyn Fn(IntVar) -> i64| {
        s.commands().iter().all(|c| match c {
            Command::Post(e) => holds(e, &bools, groups),
            _ => true,
        })
    };
    // Each letter alone in its group, no other cell in a group.
    let alone = |v: IntVar| match (v.y, v.x) {
        (0, 0) => 0,
        (0, 2) => 1,
        _ => -1,
    };
    assert!(!met(&alone));
    // However the white cells are grouped, the two letters would have to be
    // in one group.
    for bits in 0..(3u32.pow(4)) {
        let digit = |i: u32| ((bits / 3u32.pow(i)) % 3) as i64 - 1;
        let groups = |v: IntVar| match (v.y, v.x) {
            (0, 0) => 0,
            (0, 2) => 1,
            (0, 1) => digit(0),
            (1, x) => digit(1 + x as u32),
            _ => -1,
        };
        assert!(!met(&groups));
    }
    // With the letters in two regions, the groups are the regions.
    let colors = ["WBW", "WBW"];
    let bools = |v: BoolVar| {
        let c = colors[v.y].as_bytes()[v.x];
        (v.grid == 0 && c == b'W') || (v.grid == 1 && c == b'B')
    };
    let regions = |v: IntVar| match v.x {
        0 => 0,
        2 => 1,
        _ => -1,
    };
    assert!(s.commands().iter().all(|c| match c {
        Command::Post(e) => holds(e, &bools, &regions),
        _ => true,
    }));
}

#[test]
fn check_puzzle_finds_what_cannot_be_taken() {
    assert!(check_puzzle(&board(2, 3, vec![])));
    let mut p = board(2, 3, vec![]);
    p.tiles[1].pop();
    assert!(!check_puzzle(&p));
    let mut p = board(2, 3, vec![]);
    p.height = 3;
    assert!(!check_puzzle(&p));
    let mut p = board(2, 3, vec![]);
    p.connections.push(Connection { y1: 0, x1: 0, y2: 2, x2: 0 });
    assert!(!check_puzzle(&p));
    let clue = |y: usize, x: usize, number: i32| MinesweeperTile { y, x, number };
    assert!(check_puzzle(&board(2, 3, vec![Rule::Minesweeper { tiles: vec![clue(1, 2, 9)] }])));
    assert!(!check_puzzle(&board(2, 3, vec![Rule::Minesweeper { tiles: vec![clue(1, 3, 9)] }])));
    assert!(!check_puzzle(&board(2, 3, vec![Rule::Minesweeper { tiles: vec![clue(2, 0, 9)] }])));
    assert!(check_puzzle(&board(
        2,
        3,
        vec![Rule::Minesweeper { tiles: vec![clue(0, 0, i32::MAX)] }]
    )));
    assert!(!check_puzzle(&board(
        2,
        3,
        vec![Rule::Minesweeper { tiles: vec![clue(0, 0, i32::MAX)] }, Rule::OffByX { number: 1 }]
    )));
    assert!(!check_puzzle(&board(2, 3, vec![Rule::SameShape { color: Color::Undecided }])));
    assert!(!check_puzzle(&board(2, 3, vec![Rule::UniqueShape { color: Color::Undecided }])));
    assert!(!check_puzzle(&board(2, 3, vec![Rule::CellCount { color: Color::Undecided, count: 1 }])));
    assert!(!check_puzzle(&board(2, 3, vec![Rule::RegionArea { color: Color::Undecided, size: 1 }])));
    assert!(check_puzzle(&board(2, 3, vec![Rule::ConnectAll { color: Color::Undecided }])));
    assert!(!check_puzzle(&board(2, 3, vec![Rule::ForbiddenPattern { pattern: vec![] }])));
    assert!(!check_puzzle(&board(
        2,
        3,
        vec![Rule::ForbiddenPattern { pattern: vec![vec![open_tile()], vec![]] }]
    )));
    assert!(check_puzzle(&board(0, 5, vec![Rule::ConnectAll { color: Color::White }])));
    assert!(!check_puzzle(&board(
        0,
        0,
        vec![Rule::ConnectAll { color: Color::White }, Rule::ConnectAll { color: Color::Black }]
    )));
    let mut huge = board(0, 0, vec![]);
    huge.width = 1 << 20;
    huge.height = 1 << 20;
    assert!(!check_puzzle(&huge));
}

#[test]
fn boards_whose_cells_can_be_counted() {
    assert!(cells_are_counted(0, 0));
    assert!(cells_are_counted(0, usize::MAX));
    assert!(cells_are_counted(46340, 46340));
    assert!(!cells_are_counted(46341, 46341));
    assert!(cells_are_counted(i32::MAX as usize, 1));
    assert!(!cells_are_counted(i32::MAX as usize, 2));
    assert!(!cells_are_counted(usize::MAX, usize::MAX));
}

/// Whether a rule can be taken on a board of open tiles.
fn fit(rule: &Rule, height: usize, width: usize, off_by: Option<i32>) -> bool {
    rule_is_fit(rule, &vec![vec![open_tile(); width]; height], height, width, off_by)
}

#[test]
fn rules_that_can_be_taken() {
    let dart = |y: usize, x: usize, number: i32| Rule::Dart {
        tiles: vec![DartTile { y, x, orientation: Orientation::Left, number }],
    };
    assert!(fit(&dart(1, 1, 5), 2, 2, None));
    assert!(!fit(&dart(2, 1, 5), 2, 2, None));
    assert!(!fit(&dart(1, 2, 5), 2, 2, None));
    assert!(fit(&dart(1, 1, i32::MIN), 2, 2, None));
    assert!(!fit(&dart(1, 1, i32::MIN), 2, 2, Some(1)));
    assert!(fit(&dart(1, 1, i32::MIN + 1), 2, 2, Some(1)));
    assert!(!fit(&dart(1, 1, 0), 2, 2, Some(i32::MIN)));
    let view = Rule::Viewpoint { tiles: vec![ViewpointTile { y: 0, x: 3, number: 1 }] };
    assert!(fit(&view, 1, 4, None));
    assert!(!fit(&view, 1, 3, None));
    // The rules on the sizes of regions are not looked at in the walk.
    let area = Rule::AreaNumber { tiles: vec![AreaNumberTile { y: 0, x: 3, number: 1 }] };
    assert!(fit(&area, 1, 3, Some(7)));
    assert!(fit(&Rule::RegionArea { color: Color::Undecided, size: 1 }, 1, 3, None));
    let clues = [AreaNumberTile { y: 0, x: 3, number: i32::MAX }];
    assert!(area_is_fit(&clues, 1, 4, None));
    assert!(!area_is_fit(&clues, 1, 3, None));
    assert!(!area_is_fit(&clues, 1, 4, Some(1)));
    let letters = Rule::Letter { tiles: vec![LetterTile { y: 1, x: 0, letter: String::new() }] };
    assert!(fit(&letters, 2, 1, None));
    assert!(!fit(&letters, 1, 1, None));
    let lotus = Rule::Lotus { tiles: vec![LotusTile { y: 9, x: 9, orientation: Orientation::Up }] };
    assert!(fit(&lotus, 1, 1, None));
    assert!(fit(&Rule::Galaxy { tiles: vec![GalaxyTile { y: 9, x: 9 }] }, 1, 1, None));
    assert!(fit(&Rule::OffByX { number: -1 }, 1, 1, None));
    let pattern = |rows: Vec<Vec<Tile>>| Rule::ForbiddenPattern { pattern: rows };
    assert!(fit(&pattern(vec![vec![open_tile()]]), 0, 0, None));
    assert!(fit(&pattern(vec![vec![]]), 0, 0, None));
    assert!(!fit(&pattern(vec![vec![open_tile()], vec![open_tile(), missing()]]), 5, 5, None));
}

#[test]
fn a_puzzle_is_looked_at_as_far_as_it_is_not_refused() {
    // Two rules on clues that are off: nothing else is looked at.
    let mut p = board(2, 2, vec![Rule::OffByX { number: 1 }, Rule::OffByX { number: 1 }]);
    p.tiles[1].pop();
    p.connections.push(Connection { y1: 9, x1: 9, y2: 0, x2: 0 });
    assert!(check_puzzle(&p));
    assert_eq!(solve(&p, false).err(), Some(SolveError::MultipleOffByX));
    // A tile fixed to gray: the connections and the rules are not looked at.
    let mut p = board(2, 2, vec![Rule::SameShape { color: Color::Undecided }]);
    p.tiles[0][0] = fixed(Color::Undecided);
    p.connections.push(Connection { y1: 9, x1: 9, y2: 0, x2: 0 });
    assert!(check_puzzle(&p));
    assert_eq!(solve(&p, true).err(), Some(SolveError::GrayTileFixed));
    // A rule that is refused: the rules behind it are not looked at.
    let gray_shape = || Rule::SameShape { color: Color::Undecided };
    let corner = || Rule::Galaxy { tiles: vec![GalaxyTile { y: 1, x: 1 }] };
    let p = board(2, 2, vec![corner(), gray_shape()]);
    assert!(check_puzzle(&p));
    assert_eq!(solve(&p, false).err(), Some(SolveError::GalaxyOnCorner));
    assert!(!check_puzzle(&board(2, 2, vec![gray_shape(), corner()])));
    // A refused rule hides the sizes of regions too.
    let gray_size = || Rule::RegionArea { color: Color::Undecided, size: 1 };
    let p = board(2, 2, vec![gray_size(), corner()]);
    assert!(check_puzzle(&p));
    assert_eq!(solve(&p, false).err(), Some(SolveError::GalaxyOnCorner));
    assert!(!check_puzzle(&board(2, 2, vec![gray_size()])));
    // A second rule with area clues is refused before a size for gray
    // behind it is looked at, and before the area clues are.
    let clues = |x: usize| Rule::AreaNumber { tiles: vec![AreaNumberTile { y: 0, x, number: 1 }] };
    let p = board(2, 2, vec![clues(9), clues(0), gray_size()]);
    assert!(check_puzzle(&p));
    assert_eq!(solve(&p, false).err(), Some(SolveError::MultipleAreaNumberRules));
    assert!(!check_puzzle(&board(2, 2, vec![gray_size(), clues(0), clues(0)])));
    assert!(!check_puzzle(&board(2, 2, vec![clues(9)])));
    assert!(check_puzzle(&board(2, 2, vec![clues(1)])));
}

#[test]
fn rules_are_refused_on_their_own() {
    let tiles = vec![vec![open_tile(), missing()]];
    let refusal = |rule: Rule| refused(&rule, &tiles, 1, 2, None);
    assert_eq!(refusal(Rule::ConnectAll { color: Color::White }), None);
    assert_eq!(
        refusal(Rule::ConnectAll { color: Color::Undecided }),
        Some(SolveError::ConnectAllGray)
    );
    assert_eq!(
        refusal(Rule::ForbiddenPattern { pattern: vec![vec![open_tile()]] }),
        Some(SolveError::EmptyForbiddenPattern)
    );
    assert_eq!(refusal(Rule::ForbiddenPattern { pattern: vec![vec![fixed(Color::Black)]] }), None);
    let clue = |x: usize| Rule::Minesweeper { tiles: vec![MinesweeperTile { y: 0, x, number: 1 }] };
    assert_eq!(refusal(clue(0)), None);
    assert_eq!(refusal(clue(1)), Some(SolveError::MinesweeperOnMissingTile));
    let lotus = |y: usize, x: usize| Rule::Lotus {
        tiles: vec![
            LotusTile { y: 0, x: 0, orientation: Orientation::Left },
            LotusTile { y, x, orientation: Orientation::Up },
        ],
    };
    assert_eq!(refusal(lotus(0, 3)), None);
    assert_eq!(refusal(lotus(1, 3)), Some(SolveError::LotusInvalidPosition));
    assert_eq!(refusal(lotus(2, 3)), Some(SolveError::LotusOutOfBounds));
    assert_eq!(refusal(lotus(0, 4)), Some(SolveError::LotusOutOfBounds));
    let galaxy = |y: usize, x: usize| Rule::Galaxy { tiles: vec![GalaxyTile { y, x }] };
    assert_eq!(refusal(galaxy(1, 2)), None);
    assert_eq!(refusal(galaxy(1, 3)), Some(SolveError::GalaxyOnCorner));
    assert_eq!(refusal(galaxy(2, 2)), Some(SolveError::LotusOutOfBounds));
    assert_eq!(refusal(Rule::SameShape { color: Color::White }), None);
    assert_eq!(refusal(Rule::RegionArea { color: Color::White, size: 0 }), None);
    let hidden = Tile { exists: false, fixed: true, color: Color::Undecided };
    assert_eq!(tiles_reached(&vec![vec![hidden]], 1, 1), (true, false));
}

#[test]
fn a_list_is_looked_at_as_far_as_it_is_not_refused() {
    let clue = |y: usize, x: usize| MinesweeperTile { y, x, number: 1 };
    let mut p = board(1, 2, vec![Rule::Minesweeper { tiles: vec![clue(0, 1), clue(7, 7)] }]);
    p.tiles[0][1] = missing();
    // The clue on the missing tile is refused before the clue off the board
    // is looked at.
    assert!(check_puzzle(&p));
    assert_eq!(solve(&p, false).err(), Some(SolveError::MinesweeperOnMissingTile));
    p.rules = vec![Rule::Minesweeper { tiles: vec![clue(7, 7), clue(0, 1)] }];
    assert!(!check_puzzle(&p));
    // A number that cannot be held is not looked at where a clue is refused.
    let large = MinesweeperTile { y: 0, x: 0, number: i32::MAX };
    p.rules = vec![Rule::OffByX { number: 1 }, Rule::Minesweeper { tiles: vec![large, clue(0, 1)] }];
    assert!(check_puzzle(&p));
    assert_eq!(solve(&p, false).err(), Some(SolveError::MinesweeperOnMissingTile));
    p.tiles[0][1] = open_tile();
    assert!(!check_puzzle(&p));
    let dart = |y: usize, x: usize| DartTile { y, x, orientation: Orientation::Up, number: 0 };
    let view = |y: usize, x: usize| ViewpointTile { y, x, number: 0 };
    let letter = |y: usize, x: usize| LetterTile { y, x, letter: "A".to_string() };
    let tiles = vec![vec![missing(), open_tile()]];
    assert!(rule_is_fit(&Rule::Dart { tiles: vec![dart(0, 0), dart(5, 0)] }, &tiles, 1, 2, None));
    assert!(!rule_is_fit(&Rule::Dart { tiles: vec![dart(0, 1), dart(5, 0)] }, &tiles, 1, 2, None));
    assert!(rule_is_fit(
        &Rule::Viewpoint { tiles: vec![view(0, 0), view(0, 5)] },
        &tiles,
        1,
        2,
        None
    ));
    assert!(!rule_is_fit(
        &Rule::Viewpoint { tiles: vec![view(0, 5), view(0, 0)] },
        &tiles,
        1,
        2,
        None
    ));
    assert!(rule_is_fit(
        &Rule::Letter { tiles: vec![letter(0, 1), letter(0, 0), letter(1, 0)] },
        &tiles,
        1,
        2,
        None
    ));
    assert!(!rule_is_fit(
        &Rule::Letter { tiles: vec![letter(0, 1), letter(1, 0), letter(0, 0)] },
        &tiles,
        1,
        2,
        None
    ));
}

#[test]
fn tiles_are_looked_at_up_to_a_gray_tile_that_is_fixed() {
    let gray = fixed(Color::Undecided);
    // The second row is too short, but the first row is refused.
    let tiles = vec![vec![open_tile(), gray], vec![open_tile()]];
    assert_eq!(tiles_reached(&tiles, 2, 2), (true, true));
    let p = Puzzle { width: 2, height: 2, tiles, rules: vec![], connections: vec![] };
    assert!(check_puzzle(&p));
    assert_eq!(solve(&p, false).err(), Some(SolveError::GrayTileFixed));
    // The first row is too short.
    let tiles = vec![vec![open_tile()], vec![open_tile(), gray]];
    assert_eq!(tiles_reached(&tiles, 2, 2).0, false);
    // The row of the gray tile itself has its length.
    let tiles = vec![vec![gray, open_tile(), open_tile()]];
    assert_eq!(tiles_reached(&tiles, 1, 2).0, false);
    // The number of rows is looked at first.
    let tiles = vec![vec![gray, open_tile()]];
    assert_eq!(tiles_reached(&tiles, 2, 2).0, false);
    assert_eq!(tiles_reached(&tiles, 1, 2), (true, true));
    assert_eq!(tiles_reached(&vec![vec![open_tile(), missing()]], 1, 2), (true, false));
}

#[test]
fn area_clues_are_looked_at_up_to_two_on_one_cell() {
    let clue = |y: usize, x: usize, number: i32| AreaNumberTile { y, x, number };
    assert!(area_is_taken(&[clue(0, 0, 1), clue(0, 1, 2)], 1, 2, None));
    assert!(!area_is_taken(&[clue(0, 0, 1), clue(0, 2, 2)], 1, 2, None));
    // Two clues on one cell are refused before the third is looked at.
    assert!(area_is_taken(&[clue(0, 0, 1), clue(0, 0, 1), clue(0, 2, 2)], 1, 2, None));
    assert!(!area_is_taken(&[clue(0, 0, 1), clue(0, 2, 2), clue(0, 0, 1)], 1, 2, None));
    // Numbers that cannot be held are not looked at then.
    assert!(area_is_taken(&[clue(0, 0, i32::MAX), clue(0, 0, 1)], 1, 2, Some(1)));
    assert!(!area_is_taken(&[clue(0, 0, i32::MAX), clue(0, 1, 1)], 1, 2, Some(1)));
    assert!(area_is_taken(&[], 0, 0, Some(1)));
    let p = board(
        1,
        2,
        vec![Rule::AreaNumber { tiles: vec![clue(0, 1, 1), clue(0, 1, 1), clue(3, 3, 1)] }],
    );
    assert!(check_puzzle(&p));
    assert_eq!(solve(&p, false).err(), Some(SolveError::DuplicateAreaNumber));
}

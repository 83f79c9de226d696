//! From a puzzle to the program of a constraint solver: the walk over the
//! rules of the puzzle, and what it asks of the caller next.

use crate::answer::{has_size, query, query_for, Query};
use crate::encoding::{
    area_fits, area_taken, clue_fits, connections_fit, darts_fit, gray_fixed, has_color,
    has_duplicate, has_gray_fixed, initial_session, lemma_tiles_fit, letters_fit, lotus_valid,
    minesweeper_fits, no_gray_before, tiles_fit, viewpoints_fit, Session,
};
use crate::error::SolveError;
use crate::puzzle::{
    grid_of, is_grid, AreaNumberTile, Color, DartTile, GalaxyTile, LetterTile, LotusTile,
    MinesweeperTile, Orientation, Puzzle, Rule, Tile, ViewpointTile,
};
use crate::solver::{
    area_of, crop_pattern, lemma_galaxies_keep_board, lemma_lotuses_keep_board, off_by_of,
    LogicPadSolver,
};
use vstd::prelude::*;

verus! {

/// The distance by which clues are off after the first `n` rules: the
/// number of the rule that says so, if there is one. A second such rule is
/// refused, and so is a number that is not positive.
pub open spec fn scan_off_by(rules: Seq<Rule>, n: int) -> Result<Option<int>, SolveError>
    decreases n,
{
    if n <= 0 {
        Ok(None)
    } else {
        match scan_off_by(rules, n - 1) {
            Err(e) => Err(e),
            Ok(before) => match rules[n - 1] {
                Rule::OffByX { number } => if before is Some {
                    Err(SolveError::MultipleOffByX)
                } else if number <= 0 {
                    Err(SolveError::OffByXNotPositive)
                } else {
                    Ok(Some(number as int))
                },
                _ => Ok(before),
            },
        }
    }
}

/// The state of the walk over the rules: the session, and whether a rule
/// has asked that the white cells are connected, and the black cells.
pub ghost struct Walk {
    pub session: Session,
    pub white: bool,
    pub black: bool,
}

/// Some minesweeper clue lies on a tile that is not there.
pub open spec fn minesweeper_missing(tiles: Seq<MinesweeperTile>, board: Seq<Seq<Tile>>) -> bool {
    exists|i: int|
        0 <= i < tiles.len() && !board[(#[trigger] tiles[i]).y as int][tiles[i].x as int].exists
}

/// Some letter lies on a tile that is not there.
pub open spec fn letter_missing(tiles: Seq<LetterTile>, board: Seq<Seq<Tile>>) -> bool {
    exists|i: int|
        0 <= i < tiles.len() && !board[(#[trigger] tiles[i]).y as int][tiles[i].x as int].exists
}

/// Some dart lies on a tile that is not there.
pub open spec fn dart_missing(tiles: Seq<DartTile>, board: Seq<Seq<Tile>>) -> bool {
    exists|i: int|
        0 <= i < tiles.len() && !board[(#[trigger] tiles[i]).y as int][tiles[i].x as int].exists
}

/// Some viewpoint lies on a tile that is not there.
pub open spec fn viewpoint_missing(tiles: Seq<ViewpointTile>, board: Seq<Seq<Tile>>) -> bool {
    exists|i: int|
        0 <= i < tiles.len() && !board[(#[trigger] tiles[i]).y as int][tiles[i].x as int].exists
}

/// The minesweeper clues of a list lie on the board as far as they are looked at: each
/// one before which none lies on a tile that is not there.
pub open spec fn minesweeper_reach(tiles: Seq<MinesweeperTile>, board: Seq<Seq<Tile>>, height: int, width: int)
    -> bool {
    forall|k: int|
        0 <= k < tiles.len() && !minesweeper_missing(#[trigger] tiles.take(k), board) ==> tiles[k].y
            < height && tiles[k].x < width
}

/// The letters of a list lie on the board as far as they are looked at: each
/// one before which none lies on a tile that is not there.
pub open spec fn letter_reach(tiles: Seq<LetterTile>, board: Seq<Seq<Tile>>, height: int, width: int)
    -> bool {
    forall|k: int|
        0 <= k < tiles.len() && !letter_missing(#[trigger] tiles.take(k), board) ==> tiles[k].y
            < height && tiles[k].x < width
}

/// The darts of a list lie on the board as far as they are looked at: each
/// one before which none lies on a tile that is not there.
pub open spec fn dart_reach(tiles: Seq<DartTile>, board: Seq<Seq<Tile>>, height: int, width: int)
    -> bool {
    forall|k: int|
        0 <= k < tiles.len() && !dart_missing(#[trigger] tiles.take(k), board) ==> tiles[k].y
            < height && tiles[k].x < width
}

/// The viewpoints of a list lie on the board as far as they are looked at: each
/// one before which none lies on a tile that is not there.
pub open spec fn viewpoint_reach(tiles: Seq<ViewpointTile>, board: Seq<Seq<Tile>>, height: int, width: int)
    -> bool {
    forall|k: int|
        0 <= k < tiles.len() && !viewpoint_missing(#[trigger] tiles.take(k), board) ==> tiles[k].y
            < height && tiles[k].x < width
}

/// The walk after one more rule, unless the rule is refused. The rules on
/// the sizes of regions and on clues that are off are left to their own
/// walks.
#[verifier::opaque]
pub open spec fn apply_rule(w: Walk, rule: Rule, board: Seq<Seq<Tile>>) -> Result<
    Walk,
    SolveError,
> {
    match rule {
        Rule::ConnectAll { color } => match w.session.add_connect_all(color) {
            Err(e) => Err(e),
            Ok(s) => Ok(
                Walk {
                    session: s,
                    white: w.white || color == Color::White,
                    black: w.black || color == Color::Black,
                },
            ),
        },
        Rule::ForbiddenPattern { pattern } => match w.session.add_forbidden_pattern(
            grid_of(pattern@),
        ) {
            Err(e) => Err(e),
            Ok(s) => Ok(Walk { session: s, ..w }),
        },
        Rule::Minesweeper { tiles } => if minesweeper_missing(tiles@, board) {
            Err(SolveError::MinesweeperOnMissingTile)
        } else {
            Ok(Walk { session: w.session.add_minesweeper(tiles@), ..w })
        },
        Rule::AreaNumber { tiles } => Ok(w),
        Rule::Letter { tiles } => if letter_missing(tiles@, board) {
            Err(SolveError::LetterOnMissingTile)
        } else {
            Ok(Walk { session: w.session.add_letters(tiles@), ..w })
        },
        Rule::Dart { tiles } => if dart_missing(tiles@, board) {
            Err(SolveError::DartOnMissingTile)
        } else {
            Ok(Walk { session: w.session.add_darts(tiles@), ..w })
        },
        Rule::Viewpoint { tiles } => if viewpoint_missing(tiles@, board) {
            Err(SolveError::ViewpointOnMissingTile)
        } else {
            Ok(Walk { session: w.session.add_viewpoints(tiles@), ..w })
        },
        Rule::Lotus { tiles } => match w.session.add_lotuses(tiles@) {
            Err(e) => Err(e),
            Ok(s) => Ok(Walk { session: s, ..w }),
        },
        Rule::Galaxy { tiles } => match w.session.add_galaxies(tiles@) {
            Err(e) => Err(e),
            Ok(s) => Ok(Walk { session: s, ..w }),
        },
        Rule::SameShape { color } => Ok(Walk { session: w.session.add_same_shape(color), ..w }),
        Rule::UniqueShape { color } => Ok(
            Walk { session: w.session.add_unique_shape(color), ..w },
        ),
        Rule::RegionArea { color, size } => Ok(w),
        Rule::CellCount { color, count } => Ok(
            Walk { session: w.session.add_cell_count(color, count as int), ..w },
        ),
        Rule::OffByX { number } => Ok(w),
    }
}

/// The walk after the first `n` rules, unless one of them is refused.
pub open spec fn walk_rules(start: Walk, rules: Seq<Rule>, board: Seq<Seq<Tile>>, n: int)
    -> Result<Walk, SolveError>
    decreases n,
{
    if n <= 0 {
        Ok(start)
    } else {
        match walk_rules(start, rules, board, n - 1) {
            Err(e) => Err(e),
            Ok(w) => apply_rule(w, rules[n - 1], board),
        }
    }
}

/// What the rules say of the sizes of regions.
pub ghost struct Areas {
    pub area: Option<Seq<AreaNumberTile>>,
    pub light: Option<int>,
    pub dark: Option<int>,
}

/// What the first `n` rules say of the sizes of regions. A second rule
/// with area clues is refused, and so is a second size for a colour.
pub open spec fn scan_areas(rules: Seq<Rule>, n: int) -> Result<Areas, SolveError>
    decreases n,
{
    if n <= 0 {
        Ok(Areas { area: None, light: None, dark: None })
    } else {
        match scan_areas(rules, n - 1) {
            Err(e) => Err(e),
            Ok(a) => match rules[n - 1] {
                Rule::AreaNumber { tiles } => if a.area is Some {
                    Err(SolveError::MultipleAreaNumberRules)
                } else {
                    Ok(Areas { area: Some(tiles@), ..a })
                },
                Rule::RegionArea { color, size } => if color == Color::White {
                    if a.light is Some {
                        Err(SolveError::MultipleLightAreaSizeRules)
                    } else {
                        Ok(Areas { light: Some(size as int), ..a })
                    }
                } else {
                    if a.dark is Some {
                        Err(SolveError::MultipleDarkAreaSizeRules)
                    } else {
                        Ok(Areas { dark: Some(size as int), ..a })
                    }
                },
                _ => Ok(a),
            },
        }
    }
}

/// The session at the start of the walk over the rules: after the tiles
/// and the connections.
pub open spec fn board_session(p: Puzzle, off_by: Option<int>) -> Result<Session, SolveError> {
    match initial_session(p.height as int, p.width as int, off_by).add_tiles(grid_of(p.tiles@)) {
        Err(e) => Err(e),
        Ok(s) => Ok(s.add_connections(p.connections@)),
    }
}

/// The session that holds the program of a puzzle, unless the puzzle is
/// refused: the clues that are off are found first; then come the tiles,
/// the connections, and the rules in their order; then what both colours
/// being connected asks besides, if rules ask both; then the sizes of
/// regions.
pub open spec fn compile(p: Puzzle) -> Result<Session, SolveError> {
    let n = p.rules@.len() as int;
    match scan_off_by(p.rules@, n) {
        Err(e) => Err(e),
        Ok(off_by) => match board_session(p, off_by) {
            Err(e) => Err(e),
            Ok(s) => match walk_rules(
                Walk { session: s, white: false, black: false },
                p.rules@,
                grid_of(p.tiles@),
                n,
            ) {
                Err(e) => Err(e),
                Ok(w) => {
                    let s = if w.white && w.black {
                        w.session.add_connect_all_both_color()
                    } else {
                        w.session
                    };
                    match scan_areas(p.rules@, n) {
                        Err(e) => Err(e),
                        Ok(a) => s.add_area_numbers(a.area, a.light, a.dark),
                    }
                },
            },
        },
    }
}

/// A rule can be taken in the walk over the rules, on a board of the given
/// size: its pattern is a grid; its clues lie on the board as far as they
/// are looked at, and their numbers can be held unless one of them lies on
/// a tile that is not there; and its colour is not gray where a colour is
/// counted or shaped. The rules on the sizes of regions are not looked at
/// in that walk.
pub open spec fn rule_fits(
    rule: Rule,
    board: Seq<Seq<Tile>>,
    height: int,
    width: int,
    off_by: Option<int>,
) -> bool {
    match rule {
        Rule::ConnectAll { color } => true,
        Rule::ForbiddenPattern { pattern } => pattern@.len() > 0 && is_grid(
            grid_of(pattern@),
            pattern@.len() as int,
            pattern@[0]@.len() as int,
        ),
        Rule::Minesweeper { tiles } => minesweeper_reach(tiles@, board, height, width) && (
        !minesweeper_missing(tiles@, board) ==> minesweeper_fits(tiles@, height, width, off_by)),
        Rule::AreaNumber { tiles } => true,
        Rule::Letter { tiles } => letter_reach(tiles@, board, height, width) && (!letter_missing(
            tiles@,
            board,
        ) ==> letters_fit(tiles@, height, width)),
        Rule::Dart { tiles } => dart_reach(tiles@, board, height, width) && (!dart_missing(
            tiles@,
            board,
        ) ==> darts_fit(tiles@, height, width, off_by)),
        Rule::Viewpoint { tiles } => viewpoint_reach(tiles@, board, height, width) && (
        !viewpoint_missing(tiles@, board) ==> viewpoints_fit(tiles@, height, width, off_by)),
        Rule::Lotus { tiles } => true,
        Rule::Galaxy { tiles } => true,
        Rule::SameShape { color } => color != Color::Undecided,
        Rule::UniqueShape { color } => color != Color::Undecided,
        Rule::RegionArea { color, size } => true,
        Rule::CellCount { color, count } => color != Color::Undecided,
        Rule::OffByX { number } => true,
    }
}

/// A rule can be taken in the scan for the sizes of regions: a size is for
/// white or for black.
pub open spec fn size_rule_fits(rule: Rule) -> bool {
    rule matches Rule::RegionArea { color, size } ==> color != Color::Undecided
}

/// Why a lotus is refused, if it is.
pub open spec fn lotus_refusal(t: LotusTile, height: int, width: int) -> Option<SolveError> {
    if !lotus_valid(t) {
        Some(SolveError::LotusInvalidPosition)
    } else if !(t.y as int / 2 < height && t.x as int / 2 < width) {
        Some(SolveError::LotusOutOfBounds)
    } else {
        None
    }
}

/// Why a galaxy is refused, if it is.
pub open spec fn galaxy_refusal(t: GalaxyTile, height: int, width: int) -> Option<SolveError> {
    if t.x % 2 == 1 && t.y % 2 == 1 {
        Some(SolveError::GalaxyOnCorner)
    } else if !(t.y as int / 2 < height && t.x as int / 2 < width) {
        Some(SolveError::LotusOutOfBounds)
    } else {
        None
    }
}

/// Why the first of the first `n` lotuses that is refused is refused, if
/// one is.
pub open spec fn lotuses_refusal(tiles: Seq<LotusTile>, n: int, height: int, width: int)
    -> Option<SolveError>
    decreases n,
{
    if n <= 0 {
        None
    } else {
        match lotuses_refusal(tiles, n - 1, height, width) {
            Some(e) => Some(e),
            None => lotus_refusal(tiles[n - 1], height, width),
        }
    }
}

/// Why the first of the first `n` galaxies that is refused is refused, if
/// one is.
pub open spec fn galaxies_refusal(tiles: Seq<GalaxyTile>, n: int, height: int, width: int)
    -> Option<SolveError>
    decreases n,
{
    if n <= 0 {
        None
    } else {
        match galaxies_refusal(tiles, n - 1, height, width) {
            Some(e) => Some(e),
            None => galaxy_refusal(tiles[n - 1], height, width),
        }
    }
}

/// Why a rule is refused in the walk over the rules, if it is: a gray
/// colour to be connected, a pattern without a colour, a clue on a tile
/// that is not there, a lotus or a galaxy where none can be.
pub open spec fn refusal(rule: Rule, board: Seq<Seq<Tile>>, height: int, width: int) -> Option<
    SolveError,
> {
    match rule {
        Rule::ConnectAll { color } => if color == Color::Undecided {
            Some(SolveError::ConnectAllGray)
        } else {
            None
        },
        Rule::ForbiddenPattern { pattern } => if !has_color(grid_of(pattern@)) {
            Some(SolveError::EmptyForbiddenPattern)
        } else {
            None
        },
        Rule::Minesweeper { tiles } => if minesweeper_missing(tiles@, board) {
            Some(SolveError::MinesweeperOnMissingTile)
        } else {
            None
        },
        Rule::Letter { tiles } => if letter_missing(tiles@, board) {
            Some(SolveError::LetterOnMissingTile)
        } else {
            None
        },
        Rule::Dart { tiles } => if dart_missing(tiles@, board) {
            Some(SolveError::DartOnMissingTile)
        } else {
            None
        },
        Rule::Viewpoint { tiles } => if viewpoint_missing(tiles@, board) {
            Some(SolveError::ViewpointOnMissingTile)
        } else {
            None
        },
        Rule::Lotus { tiles } => lotuses_refusal(tiles@, tiles@.len() as int, height, width),
        Rule::Galaxy { tiles } => galaxies_refusal(tiles@, tiles@.len() as int, height, width),
        _ => None,
    }
}

/// The walk over the rules of a puzzle begins after the tiles and the
/// connections, with no colour known to be connected.
pub open spec fn walk_start(p: Puzzle, off_by: Option<int>) -> Walk {
    Walk { session: board_session(p, off_by)->Ok_0, white: false, black: false }
}

/// What is left of a puzzle after the walk over its rules can be taken:
/// the board has a cell if both colours are to be connected (`both`); each
/// size is
/// for white or for black, as far as the scan for sizes gets; and the area
/// clues lie on the board and can be held, if the scan finds them.
pub open spec fn sizes_fit(p: Puzzle, off_by: Option<int>, both: bool) -> bool {
    let n = p.rules@.len() as int;
    &&& both ==> p.height >= 1 && p.width >= 1
    &&& forall|i: int|
        0 <= i < n && scan_areas(p.rules@, i) is Ok ==> size_rule_fits(#[trigger] p.rules@[i])
    &&& scan_areas(p.rules@, n) is Ok && scan_areas(p.rules@, n)->Ok_0.area is Some ==> area_taken(
        scan_areas(p.rules@, n)->Ok_0.area->Some_0,
        p.height as int,
        p.width as int,
        off_by,
    )
}

/// The rules of a puzzle can be taken, as far as the walk over them gets:
/// each rule that the walk comes to can be taken, and if the walk comes to
/// its end, so can what is left.
pub open spec fn rules_fit(p: Puzzle, off_by: Option<int>) -> bool {
    let n = p.rules@.len() as int;
    let start = walk_start(p, off_by);
    let board = grid_of(p.tiles@);
    &&& forall|i: int|
        0 <= i < n && walk_rules(start, p.rules@, board, i) is Ok ==> rule_fits(
            #[trigger] p.rules@[i],
            board,
            p.height as int,
            p.width as int,
            off_by,
        )
    &&& walk_rules(start, p.rules@, board, n) is Ok ==> sizes_fit(
        p,
        off_by,
        walk_rules(start, p.rules@, board, n)->Ok_0.white && walk_rules(
            start,
            p.rules@,
            board,
            n,
        )->Ok_0.black,
    )
}

/// The puzzle is well formed as far as it is looked at. Nothing is asked
/// where the rules on clues that are off are refused. Else the cells of
/// the board can be counted in an `i32` and the tiles are a grid of the
/// size of the board, up to the row of a tile that is refused. Where no
/// tile is refused, the connections lie on the
/// board, and the rules can be taken as far as the walk over them gets: a
/// rule behind one that is refused is not looked at.
pub open spec fn puzzle_fits(p: Puzzle) -> bool {
    match scan_off_by(p.rules@, p.rules@.len() as int) {
        Err(e) => true,
        Ok(off_by) => {
            &&& p.height * p.width <= i32::MAX
            &&& tiles_fit(grid_of(p.tiles@), p.height as int, p.width as int)
            &&& board_session(p, off_by) is Ok ==> connections_fit(
                p.connections@,
                p.height as int,
                p.width as int,
            ) && rules_fit(p, off_by)
        },
    }
}

/// Once the scan for clues that are off has refused a rule, it stays so.
pub proof fn lemma_off_by_refused(rules: Seq<Rule>, k: int, n: int)
    requires
        k <= n,
        scan_off_by(rules, k) is Err,
    ensures
        scan_off_by(rules, n) == scan_off_by(rules, k),
    decreases n - k,
{
    if k < n {
        lemma_off_by_refused(rules, k, n - 1);
    }
}

/// Once the walk has refused a rule, it stays so.
pub proof fn lemma_walk_refused(
    start: Walk,
    rules: Seq<Rule>,
    board: Seq<Seq<Tile>>,
    k: int,
    n: int,
)
    requires
        k <= n,
        walk_rules(start, rules, board, k) is Err,
    ensures
        walk_rules(start, rules, board, n) == walk_rules(start, rules, board, k),
    decreases n - k,
{
    if k < n {
        lemma_walk_refused(start, rules, board, k, n - 1);
    }
}

/// Once the scan for sizes has refused a rule, it stays so.
pub proof fn lemma_areas_refused(rules: Seq<Rule>, k: int, n: int)
    requires
        k <= n,
        scan_areas(rules, k) is Err,
    ensures
        scan_areas(rules, n) == scan_areas(rules, k),
    decreases n - k,
{
    if k < n {
        lemma_areas_refused(rules, k, n - 1);
    }
}

/// A rule leaves the board and the distance by which clues are off as
/// they were.
pub proof fn lemma_rule_keeps_board(w: Walk, rule: Rule, board: Seq<Seq<Tile>>)
    requires
        apply_rule(w, rule, board) is Ok,
    ensures
        apply_rule(w, rule, board)->Ok_0.session.height == w.session.height,
        apply_rule(w, rule, board)->Ok_0.session.width == w.session.width,
        apply_rule(w, rule, board)->Ok_0.session.off_by == w.session.off_by,
{
    reveal(apply_rule);
    match rule {
        Rule::Lotus { tiles } => {
            lemma_lotuses_keep_board(w.session, tiles@, tiles@.len() as int);
        },
        Rule::Galaxy { tiles } => {
            lemma_galaxies_keep_board(w.session, tiles@, tiles@.len() as int);
        },
        _ => {},
    }
}

/// The lotuses of a list are accepted if and only if none of them is
/// refused; else the first that is refused gives the error.
pub proof fn lemma_lotuses_outcome(s: Session, tiles: Seq<LotusTile>, n: int)
    ensures
        match lotuses_refusal(tiles, n, s.height, s.width) {
            Some(e) => s.add_lotuses_upto(tiles, n) == Err::<Session, SolveError>(e),
            None => s.add_lotuses_upto(tiles, n) is Ok,
        },
    decreases n,
{
    if n > 0 {
        lemma_lotuses_outcome(s, tiles, n - 1);
        if s.add_lotuses_upto(tiles, n - 1) is Ok {
            lemma_lotuses_keep_board(s, tiles, n - 1);
        }
    }
}

/// The galaxies of a list are accepted if and only if none of them is
/// refused; else the first that is refused gives the error.
pub proof fn lemma_galaxies_outcome(s: Session, tiles: Seq<GalaxyTile>, n: int)
    ensures
        match galaxies_refusal(tiles, n, s.height, s.width) {
            Some(e) => s.add_galaxies_upto(tiles, n) == Err::<Session, SolveError>(e),
            None => s.add_galaxies_upto(tiles, n) is Ok,
        },
    decreases n,
{
    if n > 0 {
        lemma_galaxies_outcome(s, tiles, n - 1);
        if s.add_galaxies_upto(tiles, n - 1) is Ok {
            lemma_galaxies_keep_board(s, tiles, n - 1);
        }
    }
}

/// Whether a rule is refused in the walk, and why, is settled by the rule,
/// the tiles and the size of the board. A rule that is taken leaves the
/// colours known to be connected as they were, but for its own.
pub proof fn lemma_rule_outcome(w: Walk, rule: Rule, board: Seq<Seq<Tile>>)
    ensures
        match refusal(rule, board, w.session.height, w.session.width) {
            Some(e) => apply_rule(w, rule, board) == Err::<Walk, SolveError>(e),
            None => apply_rule(w, rule, board) is Ok && apply_rule(w, rule, board)->Ok_0.white == (
            w.white || rule == (Rule::ConnectAll { color: Color::White })) && apply_rule(
                w,
                rule,
                board,
            )->Ok_0.black == (w.black || rule == (Rule::ConnectAll { color: Color::Black })),
        },
{
    reveal(apply_rule);
    match rule {
        Rule::Lotus { tiles } => {
            lemma_lotuses_outcome(w.session, tiles@, tiles@.len() as int);
        },
        Rule::Galaxy { tiles } => {
            lemma_galaxies_outcome(w.session, tiles@, tiles@.len() as int);
        },
        _ => {},
    }
}

/// Some of the first `n` rules asks that the cells of a colour are
/// connected.
pub open spec fn asks_connected(rules: Seq<Rule>, n: int, c: Color) -> bool {
    exists|i: int| 0 <= i < n && #[trigger] rules[i] == (Rule::ConnectAll { color: c })
}

/// The walk over the first `n` rules comes to its end if and only if none
/// of them is refused; else the first that is refused gives the error. At
/// its end the walk knows the colours that the rules ask to be connected.
pub proof fn lemma_walk_outcome(start: Walk, rules: Seq<Rule>, board: Seq<Seq<Tile>>, n: int)
    requires
        0 <= n <= rules.len(),
        !start.white,
        !start.black,
    ensures
        walk_rules(start, rules, board, n) is Ok <==> forall|i: int|
            0 <= i < n ==> refusal(
                #[trigger] rules[i],
                board,
                start.session.height,
                start.session.width,
            ) is None,
        walk_rules(start, rules, board, n) is Ok ==> walk_rules(start, rules, board, n)->Ok_0.white
            == asks_connected(rules, n, Color::White) && walk_rules(
            start,
            rules,
            board,
            n,
        )->Ok_0.black == asks_connected(rules, n, Color::Black),
        walk_rules(start, rules, board, n) is Err ==> exists|i: int|
            0 <= i < n && refusal(
                #[trigger] rules[i],
                board,
                start.session.height,
                start.session.width,
            ) == Some(walk_rules(start, rules, board, n)->Err_0),
    decreases n,
{
    if n > 0 {
        lemma_walk_outcome(start, rules, board, n - 1);
        let before = walk_rules(start, rules, board, n - 1);
        if before is Ok {
            lemma_walk_keeps_board(start, rules, board, n - 1);
            lemma_rule_outcome(before->Ok_0, rules[n - 1], board);
            let after = walk_rules(start, rules, board, n);
            if after is Ok {
                assert(asks_connected(rules, n, Color::White) == (asks_connected(
                    rules,
                    n - 1,
                    Color::White,
                ) || rules[n - 1] == (Rule::ConnectAll { color: Color::White })));
                assert(asks_connected(rules, n, Color::Black) == (asks_connected(
                    rules,
                    n - 1,
                    Color::Black,
                ) || rules[n - 1] == (Rule::ConnectAll { color: Color::Black })));
            }
        } else {
            let i = choose|i: int|
                0 <= i < n - 1 && refusal(
                    #[trigger] rules[i],
                    board,
                    start.session.height,
                    start.session.width,
                ) == Some(before->Err_0);
            assert(refusal(rules[i], board, start.session.height, start.session.width) is Some);
        }
    }
}

/// The walk over the rules leaves the board and the distance by which
/// clues are off as they were.
pub proof fn lemma_walk_keeps_board(start: Walk, rules: Seq<Rule>, board: Seq<Seq<Tile>>, n: int)
    requires
        walk_rules(start, rules, board, n) is Ok,
    ensures
        walk_rules(start, rules, board, n)->Ok_0.session.height == start.session.height,
        walk_rules(start, rules, board, n)->Ok_0.session.width == start.session.width,
        walk_rules(start, rules, board, n)->Ok_0.session.off_by == start.session.off_by,
    decreases n,
{
    if n > 0 {
        lemma_walk_keeps_board(start, rules, board, n - 1);
        let w = walk_rules(start, rules, board, n - 1)->Ok_0;
        lemma_rule_keeps_board(w, rules[n - 1], board);
    }
}

/// The distance by which clues are off, as the rules give it.
fn find_off_by(rules: &Vec<Rule>) -> (r: Result<Option<i32>, SolveError>)
    ensures
        match scan_off_by(rules@, rules@.len() as int) {
            Ok(k) => r is Ok && off_by_of(r->Ok_0) == k,
            Err(e) => r == Err::<Option<i32>, SolveError>(e),
        },
{
    let n = rules.len();
    let mut off_by: Option<i32> = None;
    for i in 0..n
        invariant
            n == rules@.len(),
            scan_off_by(rules@, i as int) == Ok::<Option<int>, SolveError>(off_by_of(off_by)),
    {
        match &rules[i] {
            Rule::OffByX { number } => {
                if off_by.is_some() {
                    proof {
                        lemma_off_by_refused(rules@, i + 1, n as int);
                    }
                    return Err(SolveError::MultipleOffByX);
                }
                if *number <= 0 {
                    proof {
                        lemma_off_by_refused(rules@, i + 1, n as int);
                    }
                    return Err(SolveError::OffByXNotPositive);
                }
                off_by = Some(*number);
            },
            _ => {},
        }
    }
    Ok(off_by)
}

/// What the rules say of the sizes of regions.
fn find_areas<'a>(rules: &'a Vec<Rule>) -> (r: Result<
    (Option<&'a [AreaNumberTile]>, Option<i32>, Option<i32>),
    SolveError,
>)
    requires
        forall|i: int|
            0 <= i < rules@.len() && scan_areas(rules@, i) is Ok ==> size_rule_fits(
                #[trigger] rules@[i],
            ),
    ensures
        match scan_areas(rules@, rules@.len() as int) {
            Ok(a) => r is Ok && area_of(r->Ok_0.0) == a.area && off_by_of(r->Ok_0.1) == a.light
                && off_by_of(r->Ok_0.2) == a.dark,
            Err(e) => r is Err && r->Err_0 == e,
        },
        r is Ok && r->Ok_0.0 is Some ==> exists|i: int|
            0 <= i < rules@.len() && (#[trigger] rules@[i] matches Rule::AreaNumber { tiles }
                && tiles@ == r->Ok_0.0->Some_0@),
{
    let n = rules.len();
    let mut area: Option<&'a [AreaNumberTile]> = None;
    let mut light: Option<i32> = None;
    let mut dark: Option<i32> = None;
    for i in 0..n
        invariant
            n == rules@.len(),
            forall|i: int|
                0 <= i < rules@.len() && scan_areas(rules@, i) is Ok ==> size_rule_fits(
                    #[trigger] rules@[i],
                ),
            scan_areas(rules@, i as int) == Ok::<Areas, SolveError>(
                Areas { area: area_of(area), light: off_by_of(light), dark: off_by_of(dark) },
            ),
            area is Some ==> exists|k: int|
                0 <= k < rules@.len() && (#[trigger] rules@[k] matches Rule::AreaNumber { tiles }
                    && tiles@ == area->Some_0@),
    {
        match &rules[i] {
            Rule::AreaNumber { tiles } => {
                if area.is_some() {
                    proof {
                        lemma_areas_refused(rules@, i + 1, n as int);
                    }
                    return Err(SolveError::MultipleAreaNumberRules);
                }
                area = Some(tiles.as_slice());
                assert(rules@[i as int] matches Rule::AreaNumber { tiles }
                    && tiles@ == area->Some_0@);
            },
            Rule::RegionArea { color, size } => {
                assert(size_rule_fits(rules@[i as int]));
                match color {
                    Color::White => {
                        if light.is_some() {
                            proof {
                                lemma_areas_refused(rules@, i + 1, n as int);
                            }
                            return Err(SolveError::MultipleLightAreaSizeRules);
                        }
                        light = Some(*size);
                    },
                    _ => {
                        if dark.is_some() {
                            proof {
                                lemma_areas_refused(rules@, i + 1, n as int);
                            }
                            return Err(SolveError::MultipleDarkAreaSizeRules);
                        }
                        dark = Some(*size);
                    },
                }
            },
            _ => {},
        }
    }
    Ok((area, light, dark))
}

/// Whether a minesweeper clue lies on a tile that is not there.
fn any_minesweeper_missing(tiles: &Vec<MinesweeperTile>, board: &Vec<Vec<Tile>>, height: usize, width: usize) -> (r:
    bool)
    requires
        is_grid(grid_of(board@), height as int, width as int),
        minesweeper_reach(tiles@, grid_of(board@), height as int, width as int),
    ensures
        r == minesweeper_missing(tiles@, grid_of(board@)),
        !r ==> forall|i: int|
            0 <= i < tiles@.len() ==> (#[trigger] tiles@[i]).y < height && tiles@[i].x < width,
{
    let ghost g = grid_of(board@);
    proof {
        assert(tiles@.take(0).len() == 0);
    }
    for i in 0..tiles.len()
        invariant
            g == grid_of(board@),
            is_grid(g, height as int, width as int),
            minesweeper_reach(tiles@, g, height as int, width as int),
            !minesweeper_missing(tiles@.take(i as int), g),
            forall|k: int| 0 <= k < i ==> (#[trigger] tiles@[k]).y < height && tiles@[k].x < width,
    {
        assert(g[tiles@[i as int].y as int].len() == width);
        if !board[tiles[i].y][tiles[i].x].exists {
            assert(!g[tiles@[i as int].y as int][tiles@[i as int].x as int].exists);
            return true;
        }
        proof {
            let t = tiles@.take(i + 1);
            if minesweeper_missing(t, g) {
                let k = choose|k: int|
                    0 <= k < t.len() && !g[(#[trigger] t[k]).y as int][t[k].x as int].exists;
                if k < i {
                    assert(tiles@.take(i as int)[k] == t[k]);
                }
                assert(t[i as int] == tiles@[i as int]);
                assert(false);
            }
        }
    }
    proof {
        assert(tiles@.take(tiles@.len() as int) =~= tiles@);
    }
    false
}

/// Whether a letter lies on a tile that is not there.
fn any_letter_missing(tiles: &Vec<LetterTile>, board: &Vec<Vec<Tile>>, height: usize, width: usize) -> (r:
    bool)
    requires
        is_grid(grid_of(board@), height as int, width as int),
        letter_reach(tiles@, grid_of(board@), height as int, width as int),
    ensures
        r == letter_missing(tiles@, grid_of(board@)),
        !r ==> forall|i: int|
            0 <= i < tiles@.len() ==> (#[trigger] tiles@[i]).y < height && tiles@[i].x < width,
{
    let ghost g = grid_of(board@);
    proof {
        assert(tiles@.take(0).len() == 0);
    }
    for i in 0..tiles.len()
        invariant
            g == grid_of(board@),
            is_grid(g, height as int, width as int),
            letter_reach(tiles@, g, height as int, width as int),
            !letter_missing(tiles@.take(i as int), g),
            forall|k: int| 0 <= k < i ==> (#[trigger] tiles@[k]).y < height && tiles@[k].x < width,
    {
        assert(g[tiles@[i as int].y as int].len() == width);
        if !board[tiles[i].y][tiles[i].x].exists {
            assert(!g[tiles@[i as int].y as int][tiles@[i as int].x as int].exists);
            return true;
        }
        proof {
            let t = tiles@.take(i + 1);
            if letter_missing(t, g) {
                let k = choose|k: int|
                    0 <= k < t.len() && !g[(#[trigger] t[k]).y as int][t[k].x as int].exists;
                if k < i {
                    assert(tiles@.take(i as int)[k] == t[k]);
                }
                assert(t[i as int] == tiles@[i as int]);
                assert(false);
            }
        }
    }
    proof {
        assert(tiles@.take(tiles@.len() as int) =~= tiles@);
    }
    false
}

/// Whether a dart lies on a tile that is not there.
fn any_dart_missing(tiles: &Vec<DartTile>, board: &Vec<Vec<Tile>>, height: usize, width: usize) -> (r:
    bool)
    requires
        is_grid(grid_of(board@), height as int, width as int),
        dart_reach(tiles@, grid_of(board@), height as int, width as int),
    ensures
        r == dart_missing(tiles@, grid_of(board@)),
        !r ==> forall|i: int|
            0 <= i < tiles@.len() ==> (#[trigger] tiles@[i]).y < height && tiles@[i].x < width,
{
    let ghost g = grid_of(board@);
    proof {
        assert(tiles@.take(0).len() == 0);
    }
    for i in 0..tiles.len()
        invariant
            g == grid_of(board@),
            is_grid(g, height as int, width as int),
            dart_reach(tiles@, g, height as int, width as int),
            !dart_missing(tiles@.take(i as int), g),
            forall|k: int| 0 <= k < i ==> (#[trigger] tiles@[k]).y < height && tiles@[k].x < width,
    {
        assert(g[tiles@[i as int].y as int].len() == width);
        if !board[tiles[i].y][tiles[i].x].exists {
            assert(!g[tiles@[i as int].y as int][tiles@[i as int].x as int].exists);
            return true;
        }
        proof {
            let t = tiles@.take(i + 1);
            if dart_missing(t, g) {
                let k = choose|k: int|
                    0 <= k < t.len() && !g[(#[trigger] t[k]).y as int][t[k].x as int].exists;
                if k < i {
                    assert(tiles@.take(i as int)[k] == t[k]);
                }
                assert(t[i as int] == tiles@[i as int]);
                assert(false);
            }
        }
    }
    proof {
        assert(tiles@.take(tiles@.len() as int) =~= tiles@);
    }
    false
}

/// Whether a viewpoint lies on a tile that is not there.
fn any_viewpoint_missing(tiles: &Vec<ViewpointTile>, board: &Vec<Vec<Tile>>, height: usize, width: usize) -> (r:
    bool)
    requires
        is_grid(grid_of(board@), height as int, width as int),
        viewpoint_reach(tiles@, grid_of(board@), height as int, width as int),
    ensures
        r == viewpoint_missing(tiles@, grid_of(board@)),
        !r ==> forall|i: int|
            0 <= i < tiles@.len() ==> (#[trigger] tiles@[i]).y < height && tiles@[i].x < width,
{
    let ghost g = grid_of(board@);
    proof {
        assert(tiles@.take(0).len() == 0);
    }
    for i in 0..tiles.len()
        invariant
            g == grid_of(board@),
            is_grid(g, height as int, width as int),
            viewpoint_reach(tiles@, g, height as int, width as int),
            !viewpoint_missing(tiles@.take(i as int), g),
            forall|k: int| 0 <= k < i ==> (#[trigger] tiles@[k]).y < height && tiles@[k].x < width,
    {
        assert(g[tiles@[i as int].y as int].len() == width);
        if !board[tiles[i].y][tiles[i].x].exists {
            assert(!g[tiles@[i as int].y as int][tiles@[i as int].x as int].exists);
            return true;
        }
        proof {
            let t = tiles@.take(i + 1);
            if viewpoint_missing(t, g) {
                let k = choose|k: int|
                    0 <= k < t.len() && !g[(#[trigger] t[k]).y as int][t[k].x as int].exists;
                if k < i {
                    assert(tiles@.take(i as int)[k] == t[k]);
                }
                assert(t[i as int] == tiles@[i as int]);
                assert(false);
            }
        }
    }
    proof {
        assert(tiles@.take(tiles@.len() as int) =~= tiles@);
    }
    false
}

/// Takes one rule in the walk over the rules. A rule that is refused
/// leaves the session as it was.
fn take_rule(
    solver: &mut LogicPadSolver,
    rule: &Rule,
    board: &Vec<Vec<Tile>>,
    white: bool,
    black: bool,
) -> (r: Result<(bool, bool), SolveError>)
    requires
        old(solver).wf(),
        is_grid(grid_of(board@), old(solver)@.height, old(solver)@.width),
        rule_fits(
            *rule,
            grid_of(board@),
            old(solver)@.height,
            old(solver)@.width,
            old(solver)@.off_by,
        ),
    ensures
        final(solver).wf(),
        match apply_rule(
            Walk { session: old(solver)@, white, black },
            *rule,
            grid_of(board@),
        ) {
            Ok(w) => r is Ok && final(solver)@ == w.session && r->Ok_0.0 == w.white && r->Ok_0.1
                == w.black,
            Err(e) => r is Err && r->Err_0 == e && final(solver)@ == old(solver)@,
        },
{
    let ghost g = grid_of(board@);
    proof {
        reveal(apply_rule);
        solver.lemma_wf();
        assert forall|y: int| 0 <= y < solver@.height implies (#[trigger] board@[y])@.len()
            == solver@.width by {
            assert(g[y].len() == solver@.width);
        }
    }
    match rule {
        Rule::ConnectAll { color } => {
            match solver.add_connect_all(*color) {
                Ok(()) => {},
                Err(e) => {
                    return Err(e);
                },
            }
            Ok((white || *color == Color::White, black || *color == Color::Black))
        },
        Rule::ForbiddenPattern { pattern } => {
            match solver.add_forbidden_pattern(pattern.as_slice()) {
                Ok(()) => {},
                Err(e) => {
                    return Err(e);
                },
            }
            Ok((white, black))
        },
        Rule::Minesweeper { tiles } => {
            if any_minesweeper_missing(tiles, board, solver.height(), solver.width()) {
                return Err(SolveError::MinesweeperOnMissingTile);
            }
            solver.add_minesweeper(tiles.as_slice());
            Ok((white, black))
        },
        Rule::AreaNumber { tiles } => Ok((white, black)),
        Rule::Letter { tiles } => {
            if any_letter_missing(tiles, board, solver.height(), solver.width()) {
                return Err(SolveError::LetterOnMissingTile);
            }
            solver.add_letters(tiles.as_slice());
            Ok((white, black))
        },
        Rule::Dart { tiles } => {
            if any_dart_missing(tiles, board, solver.height(), solver.width()) {
                return Err(SolveError::DartOnMissingTile);
            }
            solver.add_darts(tiles.as_slice());
            Ok((white, black))
        },
        Rule::Viewpoint { tiles } => {
            if any_viewpoint_missing(tiles, board, solver.height(), solver.width()) {
                return Err(SolveError::ViewpointOnMissingTile);
            }
            solver.add_viewpoints(tiles.as_slice());
            Ok((white, black))
        },
        Rule::Lotus { tiles } => {
            match solver.add_lotuses(tiles.as_slice()) {
                Ok(()) => {},
                Err(e) => {
                    return Err(e);
                },
            }
            Ok((white, black))
        },
        Rule::Galaxy { tiles } => {
            match solver.add_galaxies(tiles.as_slice()) {
                Ok(()) => {},
                Err(e) => {
                    return Err(e);
                },
            }
            Ok((white, black))
        },
        Rule::SameShape { color } => {
            solver.add_same_shape(*color);
            Ok((white, black))
        },
        Rule::UniqueShape { color } => {
            solver.add_unique_shape(*color);
            Ok((white, black))
        },
        Rule::RegionArea { color, size } => Ok((white, black)),
        Rule::CellCount { color, count } => {
            solver.add_cell_count(*color, *count);
            Ok((white, black))
        },
        Rule::OffByX { number } => Ok((white, black)),
    }
}

/// Writes the program of a puzzle, and says what to ask of the constraint
/// solver: one model, or the facts where the puzzle is underclued. The
/// caller runs the solver on the program of the session, and hands its
/// answer to the session, which reads the colours from it.
///
/// The clues that are off are found first; then come the tiles, the
/// connections, and the rules in their order; then what both colours being
/// connected asks besides; then the sizes of regions. The first rule that
/// is refused gives the error.
pub fn solve(puzzle: &Puzzle, underclued: bool) -> (r: Result<(LogicPadSolver, Query), SolveError>)
    requires
        puzzle_fits(*puzzle),
    ensures
        match compile(*puzzle) {
            Ok(s) => r is Ok && r->Ok_0.0.wf() && r->Ok_0.0@ == s && r->Ok_0.1 == query_for(
                underclued,
            ),
            Err(e) => r is Err && r->Err_0 == e,
        },
{
    let n = puzzle.rules.len();
    let off_by = match find_off_by(&puzzle.rules) {
        Ok(k) => k,
        Err(e) => {
            return Err(e);
        },
    };
    let mut solver = LogicPadSolver::new(puzzle.height, puzzle.width, off_by);
    match solver.add_tiles(puzzle.tiles.as_slice()) {
        Ok(()) => {},
        Err(e) => {
            return Err(e);
        },
    }
    proof {
        lemma_tiles_fit(grid_of(puzzle.tiles@), puzzle.height as int, puzzle.width as int);
    }
    solver.add_connections(puzzle.connections.as_slice());
    let ghost start = walk_start(*puzzle, off_by_of(off_by));
    let ghost board = grid_of(puzzle.tiles@);
    let mut white = false;
    let mut black = false;
    for i in 0..n
        invariant
            n == puzzle.rules@.len(),
            solver.wf(),
            board == grid_of(puzzle.tiles@),
            is_grid(board, puzzle.height as int, puzzle.width as int),
            rules_fit(*puzzle, off_by_of(off_by)),
            scan_off_by(puzzle.rules@, n as int) == Ok::<Option<int>, SolveError>(
                off_by_of(off_by),
            ),
            board_session(*puzzle, off_by_of(off_by)) == Ok::<Session, SolveError>(start.session),
            start == walk_start(*puzzle, off_by_of(off_by)),
            start.session.height == puzzle.height,
            start.session.width == puzzle.width,
            start.session.off_by == off_by_of(off_by),
            walk_rules(start, puzzle.rules@, board, i as int) == Ok::<Walk, SolveError>(
                Walk { session: solver@, white, black },
            ),
    {
        proof {
            lemma_walk_keeps_board(start, puzzle.rules@, board, i as int);
            assert(rule_fits(
                puzzle.rules@[i as int],
                board,
                puzzle.height as int,
                puzzle.width as int,
                off_by_of(off_by),
            ));
        }
        match take_rule(&mut solver, &puzzle.rules[i], &puzzle.tiles, white, black) {
            Ok((w, b)) => {
                white = w;
                black = b;
            },
            Err(e) => {
                proof {
                    lemma_walk_refused(start, puzzle.rules@, board, i + 1, n as int);
                }
                return Err(e);
            },
        }
    }
    proof {
        lemma_walk_keeps_board(start, puzzle.rules@, board, n as int);
        assert(sizes_fit(*puzzle, off_by_of(off_by), white && black));
    }
    if white && black {
        solver.add_connect_all_both_color();
    }
    let (area, light, dark) = match find_areas(&puzzle.rules) {
        Ok(a) => a,
        Err(e) => {
            return Err(e);
        },
    };
    match solver.add_area_numbers(area, light, dark) {
        Ok(()) => {},
        Err(e) => {
            return Err(e);
        },
    }
    Ok((solver, query(underclued)))
}

/// Whether the numbers that a clue is compared with can be held.
fn clue_is_held(number: i32, off_by: Option<i32>) -> (r: bool)
    ensures
        r == clue_fits(number as int, off_by_of(off_by)),
{
    match off_by {
        None => true,
        Some(k) => {
            let n = number as i64;
            let k = k as i64;
            -2147483648 <= n - k && n + k <= 2147483647 && -2147483648 <= n + k && n - k
                <= 2147483647
        },
    }
}

/// Whether the minesweeper clues of a list lie on the board as far as they are
/// looked at; and, if so, whether one of them lies on a tile that is not
/// there.
#[verifier::loop_isolation(false)]
fn minesweeper_reached(tiles: &Vec<MinesweeperTile>, board: &Vec<Vec<Tile>>, height: usize, width: usize) -> (r: (
    bool,
    bool,
))
    requires
        is_grid(grid_of(board@), height as int, width as int),
    ensures
        r.0 == minesweeper_reach(tiles@, grid_of(board@), height as int, width as int),
        r.0 ==> r.1 == minesweeper_missing(tiles@, grid_of(board@)),
{
    let ghost g = grid_of(board@);
    proof {
        assert(tiles@.take(0).len() == 0);
    }
    for i in 0..tiles.len()
        invariant
            !minesweeper_missing(tiles@.take(i as int), g),
            forall|k: int| 0 <= k < i ==> (#[trigger] tiles@[k]).y < height && tiles@[k].x < width,
    {
        if !(tiles[i].y < height && tiles[i].x < width) {
            return (false, false);
        }
        assert(g[tiles@[i as int].y as int].len() == width);
        if !board[tiles[i].y][tiles[i].x].exists {
            proof {
                assert(!g[tiles@[i as int].y as int][tiles@[i as int].x as int].exists);
                assert forall|k: int|
                    0 <= k < tiles@.len() && !minesweeper_missing(
                        #[trigger] tiles@.take(k),
                        g,
                    ) implies tiles@[k].y < height && tiles@[k].x < width by {
                    if k > i {
                        let t = tiles@.take(k);
                        assert(!g[t[i as int].y as int][t[i as int].x as int].exists);
                    }
                }
            }
            return (true, true);
        }
        proof {
            let t = tiles@.take(i + 1);
            if minesweeper_missing(t, g) {
                let k = choose|k: int|
                    0 <= k < t.len() && !g[(#[trigger] t[k]).y as int][t[k].x as int].exists;
                if k < i {
                    assert(tiles@.take(i as int)[k] == t[k]);
                }
                assert(t[i as int] == tiles@[i as int]);
                assert(false);
            }
        }
    }
    proof {
        assert(tiles@.take(tiles@.len() as int) =~= tiles@);
    }
    (true, false)
}

/// Whether the letters of a list lie on the board as far as they are
/// looked at; and, if so, whether one of them lies on a tile that is not
/// there.
#[verifier::loop_isolation(false)]
fn letter_reached(tiles: &Vec<LetterTile>, board: &Vec<Vec<Tile>>, height: usize, width: usize) -> (r: (
    bool,
    bool,
))
    requires
        is_grid(grid_of(board@), height as int, width as int),
    ensures
        r.0 == letter_reach(tiles@, grid_of(board@), height as int, width as int),
        r.0 ==> r.1 == letter_missing(tiles@, grid_of(board@)),
{
    let ghost g = grid_of(board@);
    proof {
        assert(tiles@.take(0).len() == 0);
    }
    for i in 0..tiles.len()
        invariant
            !letter_missing(tiles@.take(i as int), g),
            forall|k: int| 0 <= k < i ==> (#[trigger] tiles@[k]).y < height && tiles@[k].x < width,
    {
        if !(tiles[i].y < height && tiles[i].x < width) {
            return (false, false);
        }
        assert(g[tiles@[i as int].y as int].len() == width);
        if !board[tiles[i].y][tiles[i].x].exists {
            proof {
                assert(!g[tiles@[i as int].y as int][tiles@[i as int].x as int].exists);
                assert forall|k: int|
                    0 <= k < tiles@.len() && !letter_missing(
                        #[trigger] tiles@.take(k),
                        g,
                    ) implies tiles@[k].y < height && tiles@[k].x < width by {
                    if k > i {
                        let t = tiles@.take(k);
                        assert(!g[t[i as int].y as int][t[i as int].x as int].exists);
                    }
                }
            }
            return (true, true);
        }
        proof {
            let t = tiles@.take(i + 1);
            if letter_missing(t, g) {
                let k = choose|k: int|
                    0 <= k < t.len() && !g[(#[trigger] t[k]).y as int][t[k].x as int].exists;
                if k < i {
                    assert(tiles@.take(i as int)[k] == t[k]);
                }
                assert(t[i as int] == tiles@[i as int]);
                assert(false);
            }
        }
    }
    proof {
        assert(tiles@.take(tiles@.len() as int) =~= tiles@);
    }
    (true, false)
}

/// Whether the darts of a list lie on the board as far as they are
/// looked at; and, if so, whether one of them lies on a tile that is not
/// there.
#[verifier::loop_isolation(false)]
fn dart_reached(tiles: &Vec<DartTile>, board: &Vec<Vec<Tile>>, height: usize, width: usize) -> (r: (
    bool,
    bool,
))
    requires
        is_grid(grid_of(board@), height as int, width as int),
    ensures
        r.0 == dart_reach(tiles@, grid_of(board@), height as int, width as int),
        r.0 ==> r.1 == dart_missing(tiles@, grid_of(board@)),
{
    let ghost g = grid_of(board@);
    proof {
        assert(tiles@.take(0).len() == 0);
    }
    for i in 0..tiles.len()
        invariant
            !dart_missing(tiles@.take(i as int), g),
            forall|k: int| 0 <= k < i ==> (#[trigger] tiles@[k]).y < height && tiles@[k].x < width,
    {
        if !(tiles[i].y < height && tiles[i].x < width) {
            return (false, false);
        }
        assert(g[tiles@[i as int].y as int].len() == width);
        if !board[tiles[i].y][tiles[i].x].exists {
            proof {
                assert(!g[tiles@[i as int].y as int][tiles@[i as int].x as int].exists);
                assert forall|k: int|
                    0 <= k < tiles@.len() && !dart_missing(
                        #[trigger] tiles@.take(k),
                        g,
                    ) implies tiles@[k].y < height && tiles@[k].x < width by {
                    if k > i {
                        let t = tiles@.take(k);
                        assert(!g[t[i as int].y as int][t[i as int].x as int].exists);
                    }
                }
            }
            return (true, true);
        }
        proof {
            let t = tiles@.take(i + 1);
            if dart_missing(t, g) {
                let k = choose|k: int|
                    0 <= k < t.len() && !g[(#[trigger] t[k]).y as int][t[k].x as int].exists;
                if k < i {
                    assert(tiles@.take(i as int)[k] == t[k]);
                }
                assert(t[i as int] == tiles@[i as int]);
                assert(false);
            }
        }
    }
    proof {
        assert(tiles@.take(tiles@.len() as int) =~= tiles@);
    }
    (true, false)
}

/// Whether the viewpoints of a list lie on the board as far as they are
/// looked at; and, if so, whether one of them lies on a tile that is not
/// there.
#[verifier::loop_isolation(false)]
fn viewpoint_reached(tiles: &Vec<ViewpointTile>, board: &Vec<Vec<Tile>>, height: usize, width: usize) -> (r: (
    bool,
    bool,
))
    requires
        is_grid(grid_of(board@), height as int, width as int),
    ensures
        r.0 == viewpoint_reach(tiles@, grid_of(board@), height as int, width as int),
        r.0 ==> r.1 == viewpoint_missing(tiles@, grid_of(board@)),
{
    let ghost g = grid_of(board@);
    proof {
        assert(tiles@.take(0).len() == 0);
    }
    for i in 0..tiles.len()
        invariant
            !viewpoint_missing(tiles@.take(i as int), g),
            forall|k: int| 0 <= k < i ==> (#[trigger] tiles@[k]).y < height && tiles@[k].x < width,
    {
        if !(tiles[i].y < height && tiles[i].x < width) {
            return (false, false);
        }
        assert(g[tiles@[i as int].y as int].len() == width);
        if !board[tiles[i].y][tiles[i].x].exists {
            proof {
                assert(!g[tiles@[i as int].y as int][tiles@[i as int].x as int].exists);
                assert forall|k: int|
                    0 <= k < tiles@.len() && !viewpoint_missing(
                        #[trigger] tiles@.take(k),
                        g,
                    ) implies tiles@[k].y < height && tiles@[k].x < width by {
                    if k > i {
                        let t = tiles@.take(k);
                        assert(!g[t[i as int].y as int][t[i as int].x as int].exists);
                    }
                }
            }
            return (true, true);
        }
        proof {
            let t = tiles@.take(i + 1);
            if viewpoint_missing(t, g) {
                let k = choose|k: int|
                    0 <= k < t.len() && !g[(#[trigger] t[k]).y as int][t[k].x as int].exists;
                if k < i {
                    assert(tiles@.take(i as int)[k] == t[k]);
                }
                assert(t[i as int] == tiles@[i as int]);
                assert(false);
            }
        }
    }
    proof {
        assert(tiles@.take(tiles@.len() as int) =~= tiles@);
    }
    (true, false)
}

/// Whether a rule can be taken in the walk over the rules, on a board of
/// the given size.
#[verifier::loop_isolation(false)]
pub fn rule_is_fit(
    rule: &Rule,
    board: &Vec<Vec<Tile>>,
    height: usize,
    width: usize,
    off_by: Option<i32>,
) -> (r: bool)
    requires
        is_grid(grid_of(board@), height as int, width as int),
    ensures
        r == rule_fits(*rule, grid_of(board@), height as int, width as int, off_by_of(off_by)),
{
    match rule {
        Rule::ConnectAll { color } => true,
        Rule::ForbiddenPattern { pattern } => {
            if pattern.len() == 0 {
                return false;
            }
            has_size(pattern, pattern.len(), pattern[0].len())
        },
        Rule::Minesweeper { tiles } => {
            let (fit, missing) = minesweeper_reached(tiles, board, height, width);
            if !fit {
                return false;
            }
            if missing {
                return true;
            }
            for i in 0..tiles.len()
                invariant
                    forall|k: int|
                        0 <= k < i ==> (#[trigger] tiles@[k]).y < height && tiles@[k].x < width
                            && clue_fits(
                            tiles@[k].number as int,
                            off_by_of(off_by),
                        ),
            {
                if !(tiles[i].y < height && tiles[i].x < width && clue_is_held(
                    tiles[i].number,
                    off_by,
                )) {
                    return false;
                }
            }
            true
        },
        Rule::AreaNumber { tiles } => true,
        Rule::Letter { tiles } => {
            let (fit, missing) = letter_reached(tiles, board, height, width);
            if !fit {
                return false;
            }
            if missing {
                return true;
            }
            if tiles.len() > 2147483647 {
                return false;
            }
            for i in 0..tiles.len()
                invariant
                    forall|k: int|
                        0 <= k < i ==> (#[trigger] tiles@[k]).y < height && tiles@[k].x < width,
            {
                if !(tiles[i].y < height && tiles[i].x < width) {
                    return false;
                }
            }
            true
        },
        Rule::Dart { tiles } => {
            let (fit, missing) = dart_reached(tiles, board, height, width);
            if !fit {
                return false;
            }
            if missing {
                return true;
            }
            for i in 0..tiles.len()
                invariant
                    forall|k: int|
                        0 <= k < i ==> (#[trigger] tiles@[k]).y < height && tiles@[k].x < width
                            && clue_fits(
                            tiles@[k].number as int,
                            off_by_of(off_by),
                        ),
            {
                if !(tiles[i].y < height && tiles[i].x < width && clue_is_held(
                    tiles[i].number,
                    off_by,
                )) {
                    return false;
                }
            }
            true
        },
        Rule::Viewpoint { tiles } => {
            let (fit, missing) = viewpoint_reached(tiles, board, height, width);
            if !fit {
                return false;
            }
            if missing {
                return true;
            }
            for i in 0..tiles.len()
                invariant
                    forall|k: int|
                        0 <= k < i ==> (#[trigger] tiles@[k]).y < height && tiles@[k].x < width
                            && clue_fits(
                            tiles@[k].number as int,
                            off_by_of(off_by),
                        ),
            {
                if !(tiles[i].y < height && tiles[i].x < width && clue_is_held(
                    tiles[i].number,
                    off_by,
                )) {
                    return false;
                }
            }
            true
        },
        Rule::Lotus { tiles } => true,
        Rule::Galaxy { tiles } => true,
        Rule::SameShape { color } => *color != Color::Undecided,
        Rule::UniqueShape { color } => *color != Color::Undecided,
        Rule::RegionArea { color, size } => true,
        Rule::CellCount { color, count } => *color != Color::Undecided,
        Rule::OffByX { number } => true,
    }
}

/// Puts a mark on a cell.
fn set_mark(marks: &mut Vec<Vec<bool>>, y: usize, x: usize)
    requires
        y < old(marks)@.len(),
        x < old(marks)@[y as int]@.len(),
    ensures
        final(marks)@.len() == old(marks)@.len(),
        forall|i: int|
            0 <= i < old(marks)@.len() ==> (#[trigger] grid_of(final(marks)@)[i]).len() == grid_of(
                old(marks)@,
            )[i].len(),
        forall|i: int, j: int|
            0 <= i < old(marks)@.len() && 0 <= j < grid_of(old(marks)@)[i].len() ==> (
            #[trigger] grid_of(final(marks)@)[i][j]) == (if i == y && j == x {
                true
            } else {
                grid_of(old(marks)@)[i][j]
            }),
{
    let mut row: Vec<bool> = Vec::new();
    std::mem::swap(&mut row, &mut marks[y]);
    row.set(x, true);
    std::mem::swap(&mut row, &mut marks[y]);
}

/// Whether the area clues of a list can be taken: whether they lie on the
/// board as far as they are looked at, and their numbers can be held
/// unless two of them lie on one cell.
#[verifier::loop_isolation(false)]
pub fn area_is_taken(tiles: &[AreaNumberTile], height: usize, width: usize, off_by: Option<i32>)
    -> (r: bool)
    ensures
        r == area_taken(tiles@, height as int, width as int, off_by_of(off_by)),
{
    let mut marks: Vec<Vec<bool>> = Vec::new();
    for y in 0..height
        invariant
            marks@.len() == y,
            forall|i: int| 0 <= i < y ==> (#[trigger] marks@[i])@.len() == width,
            forall|i: int, j: int| 0 <= i < y && 0 <= j < width ==> !(#[trigger] marks@[i]@[j]),
    {
        let mut row: Vec<bool> = Vec::new();
        for x in 0..width
            invariant
                row@.len() == x,
                forall|j: int| 0 <= j < x ==> !(#[trigger] row@[j]),
        {
            row.push(false);
        }
        marks.push(row);
    }
    proof {
        assert(tiles@.take(0).len() == 0);
        assert forall|y: int, x: int| 0 <= y < height && 0 <= x < width implies !(
        #[trigger] grid_of(marks@)[y][x]) by {
            assert(!marks@[y]@[x]);
        }
    }
    for k in 0..tiles.len()
        invariant
            is_grid(grid_of(marks@), height as int, width as int),
            !has_duplicate(tiles@.take(k as int)),
            forall|i: int| 0 <= i < k ==> (#[trigger] tiles@[i]).y < height && tiles@[i].x < width,
            forall|i: int|
                0 <= i < k ==> grid_of(marks@)[(#[trigger] tiles@[i]).y as int][tiles@[i].x as int],
            forall|y: int, x: int|
                0 <= y < height && 0 <= x < width && (#[trigger] grid_of(marks@)[y][x]) ==> exists|
                    i: int,
                | 0 <= i < k && (#[trigger] tiles@[i]).y == y && tiles@[i].x == x,
    {
        let ty = tiles[k].y;
        let tx = tiles[k].x;
        if !(ty < height && tx < width) {
            return false;
        }
        assert(grid_of(marks@)[ty as int].len() == width);
        if marks[ty][tx] {
            proof {
                let i = choose|i: int|
                    0 <= i < k && (#[trigger] tiles@[i]).y == ty && tiles@[i].x == tx;
                assert(tiles@[i].y == tiles@[k as int].y && tiles@[i].x == tiles@[k as int].x);
                assert(has_duplicate(tiles@));
                assert forall|j: int|
                    0 <= j < tiles@.len() && !has_duplicate(
                        #[trigger] tiles@.take(j),
                    ) implies tiles@[j].y < height && tiles@[j].x < width by {
                    if j > k {
                        let t = tiles@.take(j);
                        assert(t[i].y == t[k as int].y && t[i].x == t[k as int].x);
                    }
                }
            }
            return true;
        }
        let ghost before = grid_of(marks@);
        set_mark(&mut marks, ty, tx);
        proof {
            let after = grid_of(marks@);
            assert(is_grid(after, height as int, width as int)) by {
                assert forall|y: int| 0 <= y < height implies (#[trigger] after[y]).len()
                    == width by {
                    assert(before[y].len() == width);
                }
            }
            let t = tiles@.take(k + 1);
            if has_duplicate(t) {
                let (i, j) = choose|i: int, j: int|
                    0 <= i < j < t.len() && (#[trigger] t[i]).y == (#[trigger] t[j]).y && t[i].x
                        == t[j].x;
                if j < k {
                    let t0 = tiles@.take(k as int);
                    assert(t0[i].y == t0[j].y && t0[i].x == t0[j].x);
                } else {
                    assert(before[tiles@[i].y as int][tiles@[i].x as int]);
                }
                assert(false);
            }
            assert forall|i: int| 0 <= i < k + 1 implies after[(#[trigger] tiles@[i]).y as int][tiles@[i].x as int] by {
                if i < k {
                    assert(before[tiles@[i].y as int][tiles@[i].x as int]);
                    assert(before[tiles@[i].y as int].len() == width);
                }
            }
            assert forall|y: int, x: int|
                0 <= y < height && 0 <= x < width && (#[trigger] after[y][x]) implies exists|i: int|
                0 <= i < k + 1 && (#[trigger] tiles@[i]).y == y && tiles@[i].x == x by {
                assert(before[y].len() == width);
                if y == ty && x == tx {
                    assert(tiles@[k as int].y == y);
                } else {
                    assert(before[y][x]);
                    let i = choose|i: int|
                        0 <= i < k && (#[trigger] tiles@[i]).y == y && tiles@[i].x == x;
                    assert(tiles@[i].y == y);
                }
            }
        }
    }
    proof {
        assert(tiles@.take(tiles@.len() as int) =~= tiles@);
    }
    area_is_fit(tiles, height, width, off_by)
}

/// Whether the tiles are a grid of the size of the board as far as they
/// are looked at; and, if so, whether one of them is fixed to gray.
#[verifier::loop_isolation(false)]
pub fn tiles_reached(tiles: &Vec<Vec<Tile>>, height: usize, width: usize) -> (r: (bool, bool))
    ensures
        r.0 == tiles_fit(grid_of(tiles@), height as int, width as int),
        r.0 ==> r.1 == has_gray_fixed(grid_of(tiles@), height as int, width as int),
{
    let ghost g = grid_of(tiles@);
    if tiles.len() != height {
        return (false, false);
    }
    for y in 0..height
        invariant
            no_gray_before(g, y as int, width as int),
            forall|i: int| 0 <= i < y ==> (#[trigger] g[i]).len() == width,
    {
        if tiles[y].len() != width {
            assert(g[y as int].len() != width);
            return (false, false);
        }
        for x in 0..width
            invariant
                forall|j: int| 0 <= j < x ==> !gray_fixed(#[trigger] g[y as int][j]),
        {
            let t = &tiles[y][x];
            if t.exists && t.fixed && t.color == Color::Undecided {
                proof {
                    assert(gray_fixed(g[y as int][x as int]));
                    assert forall|i: int|
                        0 <= i < height && #[trigger] no_gray_before(
                            g,
                            i,
                            width as int,
                        ) implies g[i].len() == width by {
                        if i > y {
                            assert(!gray_fixed(g[y as int][x as int]));
                        }
                    }
                }
                return (true, true);
            }
        }
    }
    proof {
        assert(!has_gray_fixed(g, height as int, width as int));
    }
    (true, false)
}

/// Whether the area clues of a list lie on the board and can be held.
#[verifier::loop_isolation(false)]
pub fn area_is_fit(tiles: &[AreaNumberTile], height: usize, width: usize, off_by: Option<i32>) -> (r:
    bool)
    ensures
        r == area_fits(tiles@, height as int, width as int, off_by_of(off_by)),
{
    for i in 0..tiles.len()
        invariant
            forall|k: int|
                0 <= k < i ==> (#[trigger] tiles@[k]).y < height && tiles@[k].x < width
                    && clue_fits(tiles@[k].number as int, off_by_of(off_by)),
    {
        if !(tiles[i].y < height && tiles[i].x < width && clue_is_held(tiles[i].number, off_by)) {
            return false;
        }
    }
    true
}

/// Why a rule is refused in the walk over the rules, if it is.
#[verifier::loop_isolation(false)]
pub fn refused(rule: &Rule, board: &Vec<Vec<Tile>>, height: usize, width: usize, off_by: Option<
    i32,
>) -> (r: Option<SolveError>)
    requires
        is_grid(grid_of(board@), height as int, width as int),
        rule_fits(*rule, grid_of(board@), height as int, width as int, off_by_of(off_by)),
    ensures
        r == refusal(*rule, grid_of(board@), height as int, width as int),
{
    proof {
        assert forall|y: int| 0 <= y < height implies (#[trigger] board@[y])@.len() == width by {
            assert(grid_of(board@)[y].len() == width);
        }
    }
    match rule {
        Rule::ConnectAll { color } => {
            if *color == Color::Undecided {
                Some(SolveError::ConnectAllGray)
            } else {
                None
            }
        },
        Rule::ForbiddenPattern { pattern } => {
            if crop_pattern(pattern.as_slice()).is_none() {
                Some(SolveError::EmptyForbiddenPattern)
            } else {
                None
            }
        },
        Rule::Minesweeper { tiles } => {
            if any_minesweeper_missing(tiles, board, height, width) {
                Some(SolveError::MinesweeperOnMissingTile)
            } else {
                None
            }
        },
        Rule::Letter { tiles } => {
            if any_letter_missing(tiles, board, height, width) {
                Some(SolveError::LetterOnMissingTile)
            } else {
                None
            }
        },
        Rule::Dart { tiles } => {
            if any_dart_missing(tiles, board, height, width) {
                Some(SolveError::DartOnMissingTile)
            } else {
                None
            }
        },
        Rule::Viewpoint { tiles } => {
            if any_viewpoint_missing(tiles, board, height, width) {
                Some(SolveError::ViewpointOnMissingTile)
            } else {
                None
            }
        },
        Rule::Lotus { tiles } => {
            for i in 0..tiles.len()
                invariant
                    lotuses_refusal(tiles@, i as int, height as int, width as int) is None,
            {
                let t = &tiles[i];
                let valid = match t.orientation {
                    Orientation::Down | Orientation::Up => t.y % 2 == 0,
                    Orientation::Left | Orientation::Right => t.x % 2 == 0,
                    _ => t.x % 2 == 0 && t.y % 2 == 0,
                };
                if !valid {
                    proof {
                        lemma_lotuses_refusal_stays(
                            tiles@,
                            i + 1,
                            tiles@.len() as int,
                            height as int,
                            width as int,
                        );
                    }
                    return Some(SolveError::LotusInvalidPosition);
                }
                if !(t.y / 2 < height && t.x / 2 < width) {
                    proof {
                        lemma_lotuses_refusal_stays(
                            tiles@,
                            i + 1,
                            tiles@.len() as int,
                            height as int,
                            width as int,
                        );
                    }
                    return Some(SolveError::LotusOutOfBounds);
                }
            }
            None
        },
        Rule::Galaxy { tiles } => {
            for i in 0..tiles.len()
                invariant
                    galaxies_refusal(tiles@, i as int, height as int, width as int) is None,
            {
                let t = &tiles[i];
                if t.x % 2 == 1 && t.y % 2 == 1 {
                    proof {
                        lemma_galaxies_refusal_stays(
                            tiles@,
                            i + 1,
                            tiles@.len() as int,
                            height as int,
                            width as int,
                        );
                    }
                    return Some(SolveError::GalaxyOnCorner);
                }
                if !(t.y / 2 < height && t.x / 2 < width) {
                    proof {
                        lemma_galaxies_refusal_stays(
                            tiles@,
                            i + 1,
                            tiles@.len() as int,
                            height as int,
                            width as int,
                        );
                    }
                    return Some(SolveError::LotusOutOfBounds);
                }
            }
            None
        },
        _ => None,
    }
}

/// Once a lotus is refused, the lotuses behind it change nothing.
pub proof fn lemma_lotuses_refusal_stays(
    tiles: Seq<LotusTile>,
    k: int,
    n: int,
    height: int,
    width: int,
)
    requires
        k <= n,
        lotuses_refusal(tiles, k, height, width) is Some,
    ensures
        lotuses_refusal(tiles, n, height, width) == lotuses_refusal(tiles, k, height, width),
    decreases n - k,
{
    if k < n {
        lemma_lotuses_refusal_stays(tiles, k, n - 1, height, width);
    }
}

/// Once a galaxy is refused, the galaxies behind it change nothing.
pub proof fn lemma_galaxies_refusal_stays(
    tiles: Seq<GalaxyTile>,
    k: int,
    n: int,
    height: int,
    width: int,
)
    requires
        k <= n,
        galaxies_refusal(tiles, k, height, width) is Some,
    ensures
        galaxies_refusal(tiles, n, height, width) == galaxies_refusal(tiles, k, height, width),
    decreases n - k,
{
    if k < n {
        lemma_galaxies_refusal_stays(tiles, k, n - 1, height, width);
    }
}

/// Whether the cells of a board can be counted in an `i32`.
pub fn cells_are_counted(height: usize, width: usize) -> (r: bool)
    ensures
        r == (height * width <= i32::MAX),
{
    if height == 0 || width == 0 {
        assert(height * width == 0) by (nonlinear_arith)
            requires
                height == 0 || width == 0,
        ;
        return true;
    }
    let limit: usize = 2147483647;
    let most = limit / width;
    proof {
        let h = height as int;
        let w = width as int;
        let m = most as int;
        assert(m * w <= limit && limit < (m + 1) * w) by (nonlinear_arith)
            requires
                m == limit as int / w,
                w > 0,
                limit >= 0,
        ;
        if h <= m {
            assert(h * w <= m * w) by (nonlinear_arith)
                requires
                    h <= m,
                    w > 0,
            ;
        } else {
            assert(h * w >= (m + 1) * w) by (nonlinear_arith)
                requires
                    h >= m + 1,
                    w > 0,
            ;
        }
    }
    height <= most
}

/// Whether what is left of a puzzle after the walk over its rules can be
/// taken.
#[verifier::loop_isolation(false)]
fn sizes_are_fit(puzzle: &Puzzle, off_by: Option<i32>, both: bool) -> (r: bool)
    ensures
        r == sizes_fit(*puzzle, off_by_of(off_by), both),
{
    let ghost rules = puzzle.rules@;
    let n = puzzle.rules.len();
    if both && !(puzzle.height >= 1 && puzzle.width >= 1) {
        return false;
    }
    let mut area: Option<&[AreaNumberTile]> = None;
    let mut light = false;
    let mut dark = false;
    for i in 0..n
        invariant
            scan_areas(rules, i as int) is Ok,
            area_of(area) == scan_areas(rules, i as int)->Ok_0.area,
            light == scan_areas(rules, i as int)->Ok_0.light is Some,
            dark == scan_areas(rules, i as int)->Ok_0.dark is Some,
            forall|k: int| 0 <= k < i ==> size_rule_fits(#[trigger] rules[k]),
    {
        match &puzzle.rules[i] {
            Rule::AreaNumber { tiles } => {
                if area.is_some() {
                    proof {
                        lemma_areas_refused(rules, i + 1, n as int);
                        assert forall|k: int|
                            0 <= k < n && scan_areas(rules, k) is Ok implies size_rule_fits(
                            #[trigger] rules[k],
                        ) by {
                            if k > i {
                                lemma_areas_refused(rules, i + 1, k);
                            }
                        }
                    }
                    return true;
                }
                area = Some(tiles.as_slice());
            },
            Rule::RegionArea { color, size } => {
                match color {
                    Color::Undecided => {
                        assert(!size_rule_fits(rules[i as int]));
                        return false;
                    },
                    Color::White => {
                        if light {
                            proof {
                                lemma_areas_refused(rules, i + 1, n as int);
                                assert forall|k: int|
                                    0 <= k < n && scan_areas(rules, k) is Ok implies size_rule_fits(
                                    #[trigger] rules[k],
                                ) by {
                                    if k > i {
                                        lemma_areas_refused(rules, i + 1, k);
                                    }
                                }
                            }
                            return true;
                        }
                        light = true;
                    },
                    Color::Black => {
                        if dark {
                            proof {
                                lemma_areas_refused(rules, i + 1, n as int);
                                assert forall|k: int|
                                    0 <= k < n && scan_areas(rules, k) is Ok implies size_rule_fits(
                                    #[trigger] rules[k],
                                ) by {
                                    if k > i {
                                        lemma_areas_refused(rules, i + 1, k);
                                    }
                                }
                            }
                            return true;
                        }
                        dark = true;
                    },
                }
            },
            _ => {},
        }
    }
    match area {
        Some(tiles) => area_is_taken(tiles, puzzle.height, puzzle.width, off_by),
        None => true,
    }
}

/// Whether the puzzle is well formed as far as it is looked at, so that
/// its program can be written or the puzzle be refused.
#[verifier::loop_isolation(false)]
pub fn check_puzzle(puzzle: &Puzzle) -> (r: bool)
    ensures
        r == puzzle_fits(*puzzle),
{
    let n = puzzle.rules.len();
    let off_by = match find_off_by(&puzzle.rules) {
        Ok(k) => k,
        Err(e) => {
            return true;
        },
    };
    if !cells_are_counted(puzzle.height, puzzle.width) {
        return false;
    }
    let (fit, gray) = tiles_reached(&puzzle.tiles, puzzle.height, puzzle.width);
    if !fit {
        return false;
    }
    if gray {
        return true;
    }
    proof {
        lemma_tiles_fit(grid_of(puzzle.tiles@), puzzle.height as int, puzzle.width as int);
    }
    for i in 0..puzzle.connections.len()
        invariant
            forall|k: int|
                0 <= k < i ==> (#[trigger] puzzle.connections@[k]).y1 < puzzle.height
                    && puzzle.connections@[k].x1 < puzzle.width && puzzle.connections@[k].y2
                    < puzzle.height && puzzle.connections@[k].x2 < puzzle.width,
    {
        let c = &puzzle.connections[i];
        if !(c.y1 < puzzle.height && c.x1 < puzzle.width && c.y2 < puzzle.height && c.x2
            < puzzle.width) {
            return false;
        }
    }
    let ghost start = walk_start(*puzzle, off_by_of(off_by));
    let ghost board = grid_of(puzzle.tiles@);
    let ghost rules = puzzle.rules@;
    let ghost h = puzzle.height as int;
    let ghost w = puzzle.width as int;
    let mut white = false;
    let mut black = false;
    for i in 0..n
        invariant
            start.session.height == h,
            start.session.width == w,
            forall|k: int| 0 <= k < i ==> refusal(#[trigger] rules[k], board, h, w) is None,
            forall|k: int|
                0 <= k < i ==> rule_fits(#[trigger] rules[k], board, h, w, off_by_of(off_by)),
            white == asks_connected(rules, i as int, Color::White),
            black == asks_connected(rules, i as int, Color::Black),
    {
        proof {
            lemma_walk_outcome(start, rules, board, i as int);
        }
        if !rule_is_fit(&puzzle.rules[i], &puzzle.tiles, puzzle.height, puzzle.width, off_by) {
            return false;
        }
        match refused(&puzzle.rules[i], &puzzle.tiles, puzzle.height, puzzle.width, off_by) {
            Some(e) => {
                proof {
                    lemma_walk_outcome(start, rules, board, i + 1);
                    lemma_walk_refused(start, rules, board, i + 1, n as int);
                    assert forall|k: int|
                        0 <= k < n && walk_rules(start, rules, board, k) is Ok implies rule_fits(
                        #[trigger] rules[k],
                        board,
                        h,
                        w,
                        off_by_of(off_by),
                    ) by {
                        if k > i {
                            lemma_walk_refused(start, rules, board, i + 1, k);
                        }
                    }
                }
                return true;
            },
            None => {},
        }
        match &puzzle.rules[i] {
            Rule::ConnectAll { color } => {
                proof {
                    assert(rules[i as int] == (Rule::ConnectAll { color: *color }));
                }
                if *color == Color::White {
                    white = true;
                }
                if *color == Color::Black {
                    black = true;
                }
            },
            _ => {},
        }
    }
    proof {
        lemma_walk_outcome(start, rules, board, n as int);
    }
    sizes_are_fit(puzzle, off_by, white && black)
}

} // verus!

//! What each rule of a puzzle asks of a solver, as sequences of postings.
//!
//! The colour of a cell is held by two boolean variables: the cell of the
//! white grid (grid 0) and the cell of the black grid (grid 1).

use crate::error::SolveError;
use crate::letters::{sorted_keys, LetterKey};
use crate::patterns::enumeration;
use crate::expr::{
    f_eq, f_iff, f_imp, f_le, f_ne, f_not, f_var, f_xor, int_var, t_cell, t_const, t_sum,
    ConstraintType, Formula, GridExpr, Posting, Term,
};
use crate::puzzle::{
    is_grid, AreaNumberTile, Color, Connection, DartTile, GalaxyTile, LetterTile, LotusTile,
    MinesweeperTile, Orientation, Tile, ViewpointTile,
};
use crate::seqs::{concat_upto, over_cells};
use vstd::prelude::*;

verus! {

/// The number of the grid that says which cells are white.
pub const WHITE_GRID: usize = 0;

/// The number of the grid that says which cells are black.
pub const BLACK_GRID: usize = 1;

/// The variable that says that the cell `(y, x)` is white.
pub open spec fn white(y: int, x: int) -> Formula {
    f_var(0, y, x)
}

/// The variable that says that the cell `(y, x)` is black.
pub open spec fn black(y: int, x: int) -> Formula {
    f_var(1, y, x)
}

/// The number of the grid of a colour that is not gray.
pub open spec fn channel(c: Color) -> int {
    if c == Color::Black {
        1
    } else {
        0
    }
}

/// The state of a solving session: the size of the board, the distance by
/// which numeric clues are off, the program written so far, and how many
/// boolean and integer grids it has named.
pub ghost struct Session {
    pub height: int,
    pub width: int,
    pub off_by: Option<int>,
    pub program: Seq<Posting>,
    pub bool_grids: int,
    pub int_grids: int,
}

/// The program of a session that has just begun: the two colour grids, and
/// the request to have both in the answer.
pub open spec fn initial_program() -> Seq<Posting> {
    seq![
        Posting::NewBoolGrid { grid: 0 },
        Posting::NewBoolGrid { grid: 1 },
        Posting::AnswerKey { grid: 0 },
        Posting::AnswerKey { grid: 1 },
    ]
}

/// The session that has just begun.
pub open spec fn initial_session(height: int, width: int, off_by: Option<int>) -> Session {
    Session { height, width, off_by, program: initial_program(), bool_grids: 2, int_grids: 0 }
}

/// What a tile asks of its cell: a tile that is not there has neither
/// colour; one that is there has exactly one, and the one it is fixed to.
pub open spec fn tile_postings(t: Tile, y: int, x: int) -> Seq<Posting> {
    if !t.exists {
        seq![Posting::Post(f_not(black(y, x))), Posting::Post(f_not(white(y, x)))]
    } else if t.fixed && t.color == Color::White {
        seq![Posting::Post(f_xor(black(y, x), white(y, x))), Posting::Post(white(y, x))]
    } else if t.fixed && t.color == Color::Black {
        seq![Posting::Post(f_xor(black(y, x), white(y, x))), Posting::Post(black(y, x))]
    } else {
        seq![Posting::Post(f_xor(black(y, x), white(y, x)))]
    }
}

/// `tile_postings` for each cell of a board.
pub open spec fn tile_fn(tiles: Seq<Seq<Tile>>) -> spec_fn(int, int) -> Seq<Posting> {
    |y: int, x: int| tile_postings(tiles[y][x], y, x)
}

/// What the tiles of a board ask, cell by cell in row-major order.
pub open spec fn tiles_postings(tiles: Seq<Seq<Tile>>, height: int, width: int) -> Seq<Posting> {
    over_cells(height, width, tile_fn(tiles))
}

/// A tile that is there and fixed, but gray.
pub open spec fn gray_fixed(t: Tile) -> bool {
    t.exists && t.fixed && t.color == Color::Undecided
}

/// Some tile of the board is fixed to gray.
pub open spec fn has_gray_fixed(tiles: Seq<Seq<Tile>>, height: int, width: int) -> bool {
    exists|y: int, x: int| 0 <= y < height && 0 <= x < width && gray_fixed(#[trigger] tiles[y][x])
}

/// No tile in the rows before the row `y` is fixed to gray.
pub open spec fn no_gray_before(tiles: Seq<Seq<Tile>>, y: int, width: int) -> bool {
    forall|i: int, j: int| 0 <= i < y && 0 <= j < width ==> !gray_fixed(#[trigger] tiles[i][j])
}

/// The tiles are a grid of the size of the board, as far as they are
/// looked at: there are `height` rows, and each row has `width` tiles
/// unless a tile in a row before it is fixed to gray.
pub open spec fn tiles_fit(tiles: Seq<Seq<Tile>>, height: int, width: int) -> bool {
    &&& tiles.len() == height
    &&& forall|y: int|
        0 <= y < height && #[trigger] no_gray_before(tiles, y, width) ==> tiles[y].len() == width
}

/// Tiles that fit and of which none is fixed to gray are a grid of the size
/// of the board; and a grid fits.
pub proof fn lemma_tiles_fit(tiles: Seq<Seq<Tile>>, height: int, width: int)
    ensures
        tiles_fit(tiles, height, width) && !has_gray_fixed(tiles, height, width) ==> is_grid(
            tiles,
            height,
            width,
        ),
        is_grid(tiles, height, width) ==> tiles_fit(tiles, height, width),
{
    if tiles_fit(tiles, height, width) && !has_gray_fixed(tiles, height, width) {
        assert forall|y: int| 0 <= y < height implies (#[trigger] tiles[y]).len() == width by {
            assert(no_gray_before(tiles, y, width));
        }
    }
}

/// What a connection asks: its two cells agree in both colour grids.
pub open spec fn connection_postings(c: Connection) -> Seq<Posting> {
    seq![
        Posting::Post(f_iff(white(c.y1 as int, c.x1 as int), white(c.y2 as int, c.x2 as int))),
        Posting::Post(f_iff(black(c.y1 as int, c.x1 as int), black(c.y2 as int, c.x2 as int))),
    ]
}

/// The connections of a list lie on the board.
pub open spec fn connections_fit(cs: Seq<Connection>, height: int, width: int) -> bool {
    forall|i: int|
        0 <= i < cs.len() ==> (#[trigger] cs[i]).y1 < height && cs[i].x1 < width && cs[i].y2
            < height && cs[i].x2 < width
}

/// `connection_postings` for each connection of a list.
pub open spec fn connection_fn(cs: Seq<Connection>) -> spec_fn(int) -> Seq<Posting> {
    |i: int| connection_postings(cs[i])
}

/// The variable of the grid `grid` at the cell `(y0 + y, x0 + x)`.
pub open spec fn box_fn(grid: int, y0: int, x0: int) -> spec_fn(int, int) -> Seq<Formula> {
    |y: int, x: int| seq![f_var(grid, y0 + y, x0 + x)]
}

/// The variables of the grid `grid` in the rows `y0..y1` and the columns
/// `x0..x1`, in row-major order.
pub open spec fn box_formulas(grid: int, y0: int, y1: int, x0: int, x1: int) -> Seq<Formula> {
    over_cells(y1 - y0, x1 - x0, box_fn(grid, y0, x0))
}

/// The variables of the grid `grid` at the cells of a list.
pub open spec fn cell_formulas(grid: int, cells: Seq<(int, int)>) -> Seq<Formula> {
    Seq::new(cells.len(), |i: int| f_var(grid, cells[i].0, cells[i].1))
}

/// What a numeric clue asks of a count: to be the number, or, where clues
/// are off by `k`, to be the number plus `k` or the number minus `k`.
pub open spec fn clue_formula(count: Term, number: int, off_by: Option<int>) -> Formula {
    match off_by {
        None => f_eq(count, t_const(number)),
        Some(k) => Formula::Or(
            seq![f_eq(count, t_const(number + k)), f_eq(count, t_const(number - k))],
        ),
    }
}

/// The numbers that a clue is compared with can be held in an `i32`.
pub open spec fn clue_fits(number: int, off_by: Option<int>) -> bool {
    match off_by {
        None => true,
        Some(k) => i32::MIN <= number - k && number + k <= i32::MAX && i32::MIN <= number + k
            && number - k <= i32::MAX,
    }
}

/// The first row or column of the neighbourhood of the row or column `v`.
pub open spec fn box_start(v: int) -> int {
    if v > 0 {
        v - 1
    } else {
        0
    }
}

/// The end of the neighbourhood of the row or column `v`, where there are
/// `bound` rows or columns.
pub open spec fn box_end(v: int, bound: int) -> int {
    if v + 2 <= bound {
        v + 2
    } else {
        bound
    }
}

/// The variables of the grid `grid` in the three by three box around the
/// cell `(y, x)`, as far as the box lies on the board.
pub open spec fn neighbourhood(grid: int, y: int, x: int, height: int, width: int) -> Seq<
    Formula,
> {
    box_formulas(grid, box_start(y), box_end(y, height), box_start(x), box_end(x, width))
}

/// What a minesweeper clue asks: if its cell is white, the black cells of
/// the box around it are as many as the clue says, and if it is black, the
/// white cells are.
pub open spec fn minesweeper_postings(
    t: MinesweeperTile,
    height: int,
    width: int,
    off_by: Option<int>,
) -> Seq<Posting> {
    let y = t.y as int;
    let x = t.x as int;
    seq![
        Posting::Post(
            f_imp(
                white(y, x),
                clue_formula(
                    Term::CountTrue(neighbourhood(1, y, x, height, width)),
                    t.number as int,
                    off_by,
                ),
            ),
        ),
        Posting::Post(
            f_imp(
                black(y, x),
                clue_formula(
                    Term::CountTrue(neighbourhood(0, y, x, height, width)),
                    t.number as int,
                    off_by,
                ),
            ),
        ),
    ]
}

/// `minesweeper_postings` for each clue of a list.
pub open spec fn minesweeper_fn(
    tiles: Seq<MinesweeperTile>,
    height: int,
    width: int,
    off_by: Option<int>,
) -> spec_fn(int) -> Seq<Posting> {
    |i: int| minesweeper_postings(tiles[i], height, width, off_by)
}

/// The cells of the clues lie on the board, and their numbers can be held.
pub open spec fn minesweeper_fits(
    tiles: Seq<MinesweeperTile>,
    height: int,
    width: int,
    off_by: Option<int>,
) -> bool {
    forall|i: int|
        0 <= i < tiles.len() ==> (#[trigger] tiles[i]).y < height && tiles[i].x < width
            && clue_fits(tiles[i].number as int, off_by)
}

/// What forbids one of the two checkerboards at the two by two box whose
/// upper left cell is `(y, x)`.
pub open spec fn checker_postings(y: int, x: int) -> Seq<Posting> {
    seq![
        Posting::Post(
            f_not(
                Formula::And(
                    seq![white(y, x), black(y, x + 1), black(y + 1, x), white(y + 1, x + 1)],
                ),
            ),
        ),
        Posting::Post(
            f_not(
                Formula::And(
                    seq![black(y, x), white(y, x + 1), white(y + 1, x), black(y + 1, x + 1)],
                ),
            ),
        ),
    ]
}

/// `checker_postings` for each cell.
pub open spec fn checker_fn() -> spec_fn(int, int) -> Seq<Posting> {
    |y: int, x: int| checker_postings(y, x)
}

/// `n`, or zero if `n` is negative.
pub open spec fn at_least_zero(n: int) -> nat {
    if n >= 0 {
        n as nat
    } else {
        0
    }
}

/// The cells on the rim of the board, clockwise from the upper left corner:
/// the first row, the last column below its first cell, the last row from
/// the right without its last cell, the first column from below without its
/// ends.
pub open spec fn ring(height: int, width: int) -> Seq<(int, int)> {
    Seq::new(at_least_zero(width), |i: int| (0int, i)) + Seq::new(
        at_least_zero(height - 1),
        |i: int| (1 + i, width - 1),
    ) + Seq::new(at_least_zero(width - 1), |i: int| (height - 1, width - 2 - i)) + Seq::new(
        at_least_zero(height - 2),
        |i: int| (height - 2 - i, 0int),
    )
}

/// The cell `p` and the cell `q` have the two different colours.
pub open spec fn differ(p: (int, int), q: (int, int)) -> Formula {
    Formula::Or(
        seq![
            Formula::And(seq![white(p.0, p.1), black(q.0, q.1)]),
            Formula::And(seq![black(p.0, p.1), white(q.0, q.1)]),
        ],
    )
}

/// For each cell of the rim, whether it and the next cell of the rim have
/// the two different colours.
pub open spec fn ring_changes(r: Seq<(int, int)>) -> Seq<Formula> {
    Seq::new(r.len(), |i: int| differ(r[i], r[(i + 1) % (r.len() as int)]))
}

/// What is asked where both colours must be connected: no two by two box
/// is a checkerboard, and the colour changes at most twice along the rim.
pub open spec fn both_colors_postings(height: int, width: int) -> Seq<Posting> {
    over_cells(height - 1, width - 1, checker_fn()) + seq![
        Posting::Post(f_le(Term::CountTrue(ring_changes(ring(height, width))), t_const(2))),
    ]
}

/// The step of a direction: how the row and the column change.
pub open spec fn step(dir: Orientation) -> (int, int) {
    match dir {
        Orientation::Down => (1, 0),
        Orientation::Right => (0, 1),
        Orientation::Up => (-1, 0),
        Orientation::Left => (0, -1),
        Orientation::DownLeft => (1, -1),
        Orientation::DownRight => (1, 1),
        Orientation::UpLeft => (-1, -1),
        Orientation::UpRight => (-1, 1),
    }
}

/// The row or column `pos` after `k` steps of `d`.
pub open spec fn moved(pos: int, d: int, k: int) -> int {
    if d > 0 {
        pos + k
    } else if d < 0 {
        pos - k
    } else {
        pos
    }
}

/// How many steps of `d` the row or column `pos` can take and stay within
/// `0..bound`; `free` where `d` does not move it.
pub open spec fn reach(pos: int, d: int, bound: int, free: int) -> int {
    if d > 0 {
        bound - 1 - pos
    } else if d < 0 {
        pos
    } else {
        free
    }
}

/// How many cells lie on the ray from the cell `(y, x)` in a direction.
pub open spec fn ray_len(y: int, x: int, dir: Orientation, height: int, width: int) -> int {
    let ry = reach(y, step(dir).0, height, height + width);
    let rx = reach(x, step(dir).1, width, height + width);
    if ry <= rx {
        ry
    } else {
        rx
    }
}

/// The cells on the ray from the cell `(y, x)` in a direction, from the
/// nearest to the one on the rim of the board; `(y, x)` is not among them.
pub open spec fn ray(y: int, x: int, dir: Orientation, height: int, width: int) -> Seq<
    (int, int),
> {
    Seq::new(
        at_least_zero(ray_len(y, x, dir, height, width)),
        |k: int| (moved(y, step(dir).0, k + 1), moved(x, step(dir).1, k + 1)),
    )
}

/// What a dart asks: if its cell is black, the white cells on its ray are
/// as many as the clue says, and if it is white, the black cells are.
pub open spec fn dart_postings(t: DartTile, height: int, width: int, off_by: Option<int>) -> Seq<
    Posting,
> {
    let y = t.y as int;
    let x = t.x as int;
    let cells = ray(y, x, t.orientation, height, width);
    seq![
        Posting::Post(
            f_imp(
                black(y, x),
                clue_formula(Term::CountTrue(cell_formulas(0, cells)), t.number as int, off_by),
            ),
        ),
        Posting::Post(
            f_imp(
                white(y, x),
                clue_formula(Term::CountTrue(cell_formulas(1, cells)), t.number as int, off_by),
            ),
        ),
    ]
}

/// `dart_postings` for each dart of a list.
pub open spec fn dart_fn(tiles: Seq<DartTile>, height: int, width: int, off_by: Option<int>)
    -> spec_fn(int) -> Seq<Posting> {
    |i: int| dart_postings(tiles[i], height, width, off_by)
}

/// The cells of the darts lie on the board, and their numbers can be held.
pub open spec fn darts_fit(tiles: Seq<DartTile>, height: int, width: int, off_by: Option<int>)
    -> bool {
    forall|i: int|
        0 <= i < tiles.len() ==> (#[trigger] tiles[i]).y < height && tiles[i].x < width
            && clue_fits(tiles[i].number as int, off_by)
}

/// How many cells of the grid `grid` are true in a row from the cell
/// `(y, x)` on, in a direction, the cell itself not counted.
pub open spec fn run(grid: int, y: int, x: int, dir: Orientation, height: int, width: int)
    -> Term {
    Term::ConsecutivePrefixTrue(cell_formulas(grid, ray(y, x, dir, height, width)))
}

/// How many cells of the grid `grid` are seen from the cell `(y, x)`: the
/// cell itself, and the runs upwards, to the left, downwards and to the
/// right.
pub open spec fn seen(grid: int, y: int, x: int, height: int, width: int) -> Term {
    t_sum(
        t_sum(
            t_sum(
                t_sum(t_const(1), run(grid, y, x, Orientation::Up, height, width)),
                run(grid, y, x, Orientation::Left, height, width),
            ),
            run(grid, y, x, Orientation::Down, height, width),
        ),
        run(grid, y, x, Orientation::Right, height, width),
    )
}

/// What a viewpoint asks: whichever colour its cell has, the cells of that
/// colour seen from it are as many as the clue says.
pub open spec fn viewpoint_postings(
    t: ViewpointTile,
    height: int,
    width: int,
    off_by: Option<int>,
) -> Seq<Posting> {
    let y = t.y as int;
    let x = t.x as int;
    seq![
        Posting::Post(
            f_imp(black(y, x), clue_formula(seen(1, y, x, height, width), t.number as int, off_by)),
        ),
        Posting::Post(
            f_imp(white(y, x), clue_formula(seen(0, y, x, height, width), t.number as int, off_by)),
        ),
    ]
}

/// `viewpoint_postings` for each viewpoint of a list.
pub open spec fn viewpoint_fn(
    tiles: Seq<ViewpointTile>,
    height: int,
    width: int,
    off_by: Option<int>,
) -> spec_fn(int) -> Seq<Posting> {
    |i: int| viewpoint_postings(tiles[i], height, width, off_by)
}

/// The cells of the viewpoints lie on the board, and their numbers can be
/// held.
pub open spec fn viewpoints_fit(
    tiles: Seq<ViewpointTile>,
    height: int,
    width: int,
    off_by: Option<int>,
) -> bool {
    forall|i: int|
        0 <= i < tiles.len() ==> (#[trigger] tiles[i]).y < height && tiles[i].x < width
            && clue_fits(tiles[i].number as int, off_by)
}

/// What a pair of neighbours asks of the block `grid`: two cells of the
/// same colour are both in the block or both outside, and of two cells that
/// differ in a colour grid at most one is in the block.
pub open spec fn pair_postings(grid: int, p: (int, int), q: (int, int)) -> Seq<Posting> {
    let bp = f_var(grid, p.0, p.1);
    let bq = f_var(grid, q.0, q.1);
    seq![
        Posting::Post(
            f_imp(Formula::And(seq![black(p.0, p.1), black(q.0, q.1)]), f_iff(bp, bq)),
        ),
        Posting::Post(
            f_imp(Formula::And(seq![white(p.0, p.1), white(q.0, q.1)]), f_iff(bp, bq)),
        ),
        Posting::Post(
            f_imp(
                f_xor(black(p.0, p.1), black(q.0, q.1)),
                Formula::Or(seq![f_not(bp), f_not(bq)]),
            ),
        ),
        Posting::Post(
            f_imp(
                f_xor(white(p.0, p.1), white(q.0, q.1)),
                Formula::Or(seq![f_not(bp), f_not(bq)]),
            ),
        ),
    ]
}

/// `pair_postings` for a cell and the cell above it, then for the cell and
/// the cell to its left, as far as those are on the board.
pub open spec fn block_pairs(grid: int, y: int, x: int) -> Seq<Posting> {
    (if y > 0 {
        pair_postings(grid, (y, x), (y - 1, x))
    } else {
        Seq::empty()
    }) + (if x > 0 {
        pair_postings(grid, (y, x), (y, x - 1))
    } else {
        Seq::empty()
    })
}

/// `block_pairs` for each cell.
pub open spec fn block_pairs_fn(grid: int) -> spec_fn(int, int) -> Seq<Posting> {
    |y: int, x: int| block_pairs(grid, y, x)
}

/// Half of `a`, rounded towards zero.
pub open spec fn half(a: int) -> int {
    if a >= 0 {
        a / 2
    } else {
        -((-a) / 2)
    }
}

/// The image of the cell `(y, x)` under the symmetry of a lotus with the
/// given orientation, or of a galaxy where there is none, whose centre is
/// the point `(sy, sx)` of the half-cell grid.
pub open spec fn image(ori: Option<Orientation>, sy: int, sx: int, y: int, x: int) -> (int, int) {
    match ori {
        Some(Orientation::Down) | Some(Orientation::Up) => (y, sx - x),
        Some(Orientation::Left) | Some(Orientation::Right) => (sy - y, x),
        Some(Orientation::DownLeft) | Some(Orientation::UpRight) => (
            (sx + sy) / 2 - x,
            (sx + sy) / 2 - y,
        ),
        Some(Orientation::DownRight) | Some(Orientation::UpLeft) => (
            half(sy - sx) + x,
            half(sx - sy) + y,
        ),
        None => (sy - y, sx - x),
    }
}

/// What the symmetry asks of the cell `(y, x)` of the block `grid`: a cell
/// whose image is off the board is outside the block; a cell that comes
/// before its image in row-major order is in the block if and only if its
/// image is.
pub open spec fn symmetry_postings(
    grid: int,
    ori: Option<Orientation>,
    sy: int,
    sx: int,
    height: int,
    width: int,
    y: int,
    x: int,
) -> Seq<Posting> {
    let (y2, x2) = image(ori, sy, sx, y, x);
    if !(0 <= y2 < height && 0 <= x2 < width) {
        seq![Posting::Post(f_not(f_var(grid, y, x)))]
    } else if y < y2 || (y == y2 && x < x2) {
        seq![Posting::Post(f_iff(f_var(grid, y, x), f_var(grid, y2, x2)))]
    } else {
        Seq::empty()
    }
}

/// `symmetry_postings` for each cell.
pub open spec fn symmetry_fn(
    grid: int,
    ori: Option<Orientation>,
    sy: int,
    sx: int,
    height: int,
    width: int,
) -> spec_fn(int, int) -> Seq<Posting> {
    |y: int, x: int| symmetry_postings(grid, ori, sy, sx, height, width, y, x)
}

/// What a symmetric region asks: a new grid `grid` holds a block that is
/// connected, contains the cell `(y, x)`, is a region of one colour, and is
/// mapped to itself by the symmetry.
pub open spec fn region_postings(
    grid: int,
    y: int,
    x: int,
    sy: int,
    sx: int,
    ori: Option<Orientation>,
    height: int,
    width: int,
) -> Seq<Posting> {
    seq![
        Posting::NewBoolGrid { grid },
        Posting::Connected(GridExpr::Bools { grid: grid as usize }),
        Posting::Post(f_var(grid, y, x)),
    ] + over_cells(height, width, block_pairs_fn(grid)) + over_cells(
        height,
        width,
        symmetry_fn(grid, ori, sy, sx, height, width),
    )
}

/// The centre of the lotus lies where its orientation allows: on a whole
/// row for a vertical axis, on a whole column for a horizontal one, on both
/// for a diagonal one.
pub open spec fn lotus_valid(t: LotusTile) -> bool {
    match t.orientation {
        Orientation::Down | Orientation::Up => t.y % 2 == 0,
        Orientation::Left | Orientation::Right => t.x % 2 == 0,
        _ => t.x % 2 == 0 && t.y % 2 == 0,
    }
}

/// The tile `(y, x)` of a pattern has a colour.
pub open spec fn colored(p: Seq<Seq<Tile>>, y: int, x: int) -> bool {
    p[y][x].color != Color::Undecided
}

/// Some tile of the row `y` of a pattern has a colour.
pub open spec fn row_colored(p: Seq<Seq<Tile>>, y: int) -> bool {
    exists|x: int| 0 <= x < p[0].len() && colored(p, y, x)
}

/// Some tile of the column `x` of a pattern has a colour.
pub open spec fn col_colored(p: Seq<Seq<Tile>>, x: int) -> bool {
    exists|y: int| 0 <= y < p.len() && colored(p, y, x)
}

/// Some tile of a pattern has a colour.
pub open spec fn has_color(p: Seq<Seq<Tile>>) -> bool {
    exists|y: int, x: int| 0 <= y < p.len() && 0 <= x < p[0].len() && colored(p, y, x)
}

/// The rows `top..=bottom` and the columns `left..=right` are the smallest
/// box that holds every coloured tile of a pattern.
pub open spec fn is_bounds(p: Seq<Seq<Tile>>, top: int, bottom: int, left: int, right: int)
    -> bool {
    &&& 0 <= top <= bottom < p.len()
    &&& 0 <= left <= right < p[0].len()
    &&& row_colored(p, top)
    &&& row_colored(p, bottom)
    &&& col_colored(p, left)
    &&& col_colored(p, right)
    &&& forall|y: int, x: int|
        0 <= y < p.len() && 0 <= x < p[0].len() && colored(p, y, x) ==> top <= y <= bottom && left
            <= x <= right
}

/// The smallest box that holds every coloured tile of a pattern: its first
/// and last row, and its first and last column.
pub open spec fn bounds(p: Seq<Seq<Tile>>) -> (int, int, int, int) {
    choose|b: (int, int, int, int)| is_bounds(p, b.0, b.1, b.2, b.3)
}

/// The colours of a pattern in the rows `top..=bottom` and the columns
/// `left..=right`.
pub open spec fn cropped(p: Seq<Seq<Tile>>, top: int, bottom: int, left: int, right: int) -> Seq<
    Seq<Color>,
> {
    Seq::new(
        at_least_zero(bottom - top + 1),
        |y: int| Seq::new(at_least_zero(right - left + 1), |x: int| p[top + y][left + x].color),
    )
}

/// The colours of a pattern within the smallest box that holds every
/// coloured tile.
pub open spec fn crop(p: Seq<Seq<Tile>>) -> Seq<Seq<Color>> {
    let b = bounds(p);
    cropped(p, b.0, b.1, b.2, b.3)
}

/// The variable that a cell of a pattern stands for when the pattern lies
/// with its upper left corner at `(y, x)`: the white one for a white cell,
/// the black one for a black cell, none for a gray cell.
pub open spec fn literal_fn(pat: Seq<Seq<Color>>, y: int, x: int) -> spec_fn(int, int) -> Seq<
    Formula,
> {
    |dy: int, dx: int|
        match pat[dy][dx] {
            Color::White => seq![white(y + dy, x + dx)],
            Color::Black => seq![black(y + dy, x + dx)],
            Color::Undecided => Seq::empty(),
        }
}

/// The variables that say that a pattern lies with its upper left corner at
/// `(y, x)`.
pub open spec fn literals(pat: Seq<Seq<Color>>, y: int, x: int) -> Seq<Formula> {
    over_cells(pat.len() as int, pat[0].len() as int, literal_fn(pat, y, x))
}

/// That a pattern does not lie with its upper left corner at `(y, x)`.
pub open spec fn placement_fn(pat: Seq<Seq<Color>>) -> spec_fn(int, int) -> Seq<Posting> {
    |y: int, x: int| seq![Posting::Post(f_not(Formula::And(literals(pat, y, x))))]
}

/// That a pattern lies nowhere on the board; nothing if it is larger than
/// the board.
pub open spec fn pattern_postings(pat: Seq<Seq<Color>>, height: int, width: int) -> Seq<Posting> {
    if pat.len() <= height && pat[0].len() <= width {
        over_cells(height - pat.len() + 1, width - pat[0].len() + 1, placement_fn(pat))
    } else {
        Seq::empty()
    }
}

/// `pattern_postings` for each pattern of a list.
pub open spec fn patterns_fn(list: Seq<Seq<Seq<Color>>>, height: int, width: int) -> spec_fn(
    int,
) -> Seq<Posting> {
    |i: int| pattern_postings(list[i], height, width)
}

/// That none of the patterns of a list lies anywhere on the board.
pub open spec fn forbidden_postings(list: Seq<Seq<Seq<Color>>>, height: int, width: int) -> Seq<
    Posting,
> {
    concat_upto(list.len() as int, patterns_fn(list, height, width))
}

/// The number that the area clues of a list give for the cell `(y, x)`,
/// if one of them lies there.
pub open spec fn clue_at(tiles: Seq<AreaNumberTile>, y: int, x: int) -> Option<int> {
    if exists|i: int| 0 <= i < tiles.len() && (#[trigger] tiles[i]).y == y && tiles[i].x == x {
        let i = choose|i: int| 0 <= i < tiles.len() && (#[trigger] tiles[i]).y == y && tiles[i].x == x;
        Some(tiles[i].number as int)
    } else {
        None
    }
}

/// The number that optional area clues give for the cell `(y, x)`.
pub open spec fn area_clue(area: Option<Seq<AreaNumberTile>>, y: int, x: int) -> Option<int> {
    match area {
        Some(tiles) => clue_at(tiles, y, x),
        None => None,
    }
}

/// Two area clues of a list lie on the same cell.
pub open spec fn has_duplicate(tiles: Seq<AreaNumberTile>) -> bool {
    exists|i: int, j: int|
        0 <= i < j < tiles.len() && (#[trigger] tiles[i]).y == (#[trigger] tiles[j]).y
            && tiles[i].x == tiles[j].x
}

/// The area clues lie on the board, and their numbers can be held.
pub open spec fn area_fits(
    tiles: Seq<AreaNumberTile>,
    height: int,
    width: int,
    off_by: Option<int>,
) -> bool {
    forall|i: int|
        0 <= i < tiles.len() ==> (#[trigger] tiles[i]).y < height && tiles[i].x < width
            && clue_fits(tiles[i].number as int, off_by)
}

/// The area clues lie on the board as far as they are looked at: each one
/// before which no two clues lie on one cell.
pub open spec fn area_reach(tiles: Seq<AreaNumberTile>, height: int, width: int) -> bool {
    forall|k: int|
        0 <= k < tiles.len() && !has_duplicate(#[trigger] tiles.take(k)) ==> tiles[k].y < height
            && tiles[k].x < width
}

/// The area clues can be taken: they lie on the board as far as they are
/// looked at, and their numbers can be held unless two of them lie on one
/// cell.
pub open spec fn area_taken(
    tiles: Seq<AreaNumberTile>,
    height: int,
    width: int,
    off_by: Option<int>,
) -> bool {
    &&& area_reach(tiles, height, width)
    &&& !has_duplicate(tiles) ==> area_fits(tiles, height, width, off_by)
}

/// The size that a colour asks of the region of a cell, if it asks one.
pub open spec fn color_size(cond: Formula, size: Option<int>, var: Term) -> Seq<Posting> {
    match size {
        Some(n) => seq![Posting::Post(f_imp(cond, f_eq(var, t_const(n))))],
        None => Seq::empty(),
    }
}

/// Whether the size of a region is told by a variable of its own: where a
/// colour asks a size, at every cell; else at the cells with a clue that is
/// off by `k` and larger than `k`.
pub open spec fn has_size_var(
    light: Option<int>,
    dark: Option<int>,
    clue: Option<int>,
    off_by: Option<int>,
) -> bool {
    light is Some || dark is Some || (clue is Some && off_by is Some && clue->Some_0
        - off_by->Some_0 > 0)
}

/// What is posted for the cell `(y, x)` where regions have sizes: where a
/// colour asks a size, a variable for the size of the region of the cell,
/// which is the asked size if the cell has that colour, and which meets the
/// clue of the cell; else, for a clue that is off by `k` and larger than
/// `k`, a variable that is the clue minus `k` or plus `k`.
pub open spec fn area_cell_postings(
    grid: int,
    y: int,
    x: int,
    cells: int,
    light: Option<int>,
    dark: Option<int>,
    clue: Option<int>,
    off_by: Option<int>,
) -> Seq<Posting> {
    if light is Some || dark is Some {
        seq![Posting::NewIntVar { var: int_var(grid, y, x), lo: 1, hi: cells }] + color_size(
            white(y, x),
            light,
            t_cell(grid, y, x),
        ) + color_size(black(y, x), dark, t_cell(grid, y, x)) + (match clue {
            Some(n) => seq![Posting::Post(clue_formula(t_cell(grid, y, x), n, off_by))],
            None => Seq::empty(),
        })
    } else if has_size_var(light, dark, clue, off_by) {
        seq![
            Posting::NewIntVarFromDomain {
                var: int_var(grid, y, x),
                domain: seq![clue->Some_0 - off_by->Some_0, clue->Some_0 + off_by->Some_0],
            },
        ]
    } else {
        Seq::empty()
    }
}

/// The size of the region of the cell `(y, x)`: its variable where it has
/// one; else the clue, plus `k` where clues are off by `k`; nothing where
/// there is no clue.
pub open spec fn area_cell_size(
    grid: int,
    y: int,
    x: int,
    light: Option<int>,
    dark: Option<int>,
    clue: Option<int>,
    off_by: Option<int>,
) -> Option<Term> {
    if has_size_var(light, dark, clue, off_by) {
        Some(t_cell(grid, y, x))
    } else {
        match clue {
            Some(n) => match off_by {
                Some(k) => Some(t_const(n + k)),
                None => Some(t_const(n)),
            },
            None => None,
        }
    }
}

/// `area_cell_postings` for each cell.
pub open spec fn area_cell_fn(
    grid: int,
    cells: int,
    area: Option<Seq<AreaNumberTile>>,
    light: Option<int>,
    dark: Option<int>,
    off_by: Option<int>,
) -> spec_fn(int, int) -> Seq<Posting> {
    |y: int, x: int|
        area_cell_postings(grid, y, x, cells, light, dark, area_clue(area, y, x), off_by)
}

/// `area_cell_size` for each cell.
pub open spec fn area_size_fn(
    grid: int,
    area: Option<Seq<AreaNumberTile>>,
    light: Option<int>,
    dark: Option<int>,
    off_by: Option<int>,
) -> spec_fn(int, int) -> Seq<Option<Term>> {
    |y: int, x: int| seq![area_cell_size(grid, y, x, light, dark, area_clue(area, y, x), off_by)]
}

/// The edges from the cell `(y, x)` to the cell above it and to the cell
/// to its left, as far as those are on the board. The cell `(y, x)` is the
/// vertex `y * width + x`.
pub open spec fn edge_fn(width: int) -> spec_fn(int, int) -> Seq<(int, int)> {
    |y: int, x: int|
        (if y > 0 {
            seq![(y * width + x, (y - 1) * width + x)]
        } else {
            Seq::empty()
        }) + (if x > 0 {
            seq![(y * width + x, y * width + x - 1)]
        } else {
            Seq::empty()
        })
}

/// Two cells are apart: they are not both white and not both black.
pub open spec fn apart(p: (int, int), q: (int, int)) -> Formula {
    f_not(
        Formula::Or(
            seq![
                Formula::And(seq![white(p.0, p.1), white(q.0, q.1)]),
                Formula::And(seq![black(p.0, p.1), black(q.0, q.1)]),
            ],
        ),
    )
}

/// For each edge of `edge_fn`, whether its two cells are apart.
pub open spec fn cut_fn() -> spec_fn(int, int) -> Seq<Formula> {
    |y: int, x: int|
        (if y > 0 {
            seq![apart((y, x), (y - 1, x))]
        } else {
            Seq::empty()
        }) + (if x > 0 {
            seq![apart((y, x), (y, x - 1))]
        } else {
            Seq::empty()
        })
}

/// What the sizes of regions ask: the variables and what is posted of them,
/// cell by cell, and then the division of the board into regions of cells
/// that are not apart, with the size of the region of each cell.
pub open spec fn area_postings(
    grid: int,
    height: int,
    width: int,
    area: Option<Seq<AreaNumberTile>>,
    light: Option<int>,
    dark: Option<int>,
    off_by: Option<int>,
) -> Seq<Posting> {
    over_cells(height, width, area_cell_fn(grid, height * width, area, light, dark, off_by))
        + seq![
        Posting::GraphDivision {
            sizes: over_cells(height, width, area_size_fn(grid, area, light, dark, off_by)),
            edges: over_cells(height, width, edge_fn(width)),
            cuts: over_cells(height, width, cut_fn()),
        },
    ]
}

/// The number of the group of the key at the place `i` of a sorted list:
/// how many times the letter changes up to that place.
pub open spec fn group_of(keys: Seq<LetterKey>, i: int) -> int
    decreases i,
{
    if i <= 0 {
        0
    } else {
        group_of(keys, i - 1) + if keys[i].0 != keys[i - 1].0 {
            1int
        } else {
            0int
        }
    }
}

/// How many groups a sorted list of keys has: as many as it has letters.
pub open spec fn group_count(keys: Seq<LetterKey>) -> int {
    if keys.len() == 0 {
        0
    } else {
        group_of(keys, keys.len() - 1) + 1
    }
}

/// The cell `(y, x)` has no colour.
pub open spec fn blank(y: int, x: int) -> Formula {
    Formula::And(seq![f_not(black(y, x)), f_not(white(y, x))])
}

/// A cell without a colour is in no group.
pub open spec fn blank_fn(grid: int) -> spec_fn(int, int) -> Seq<Posting> {
    |y: int, x: int| seq![Posting::Post(f_imp(blank(y, x), f_eq(t_cell(grid, y, x), t_const(-1))))]
}

/// What a pair of neighbours asks of the groups: if one of the two cells
/// is in a group, then one of them has no colour, or they are in the same
/// group if and only if they have the same colour.
pub open spec fn group_pair(grid: int, p: (int, int), q: (int, int)) -> Posting {
    Posting::Post(
        f_imp(
            Formula::Or(
                seq![
                    f_ne(t_cell(grid, p.0, p.1), t_const(-1)),
                    f_ne(t_cell(grid, q.0, q.1), t_const(-1)),
                ],
            ),
            Formula::Or(
                seq![
                    blank(p.0, p.1),
                    blank(q.0, q.1),
                    f_iff(
                        f_eq(t_cell(grid, p.0, p.1), t_cell(grid, q.0, q.1)),
                        Formula::And(
                            seq![
                                f_iff(black(p.0, p.1), black(q.0, q.1)),
                                f_iff(white(p.0, p.1), white(q.0, q.1)),
                            ],
                        ),
                    ),
                ],
            ),
        ),
    )
}

/// `group_pair` for a cell and the cell above it, then for the cell and the
/// cell to its left, as far as those are on the board.
pub open spec fn group_pairs_fn(grid: int) -> spec_fn(int, int) -> Seq<Posting> {
    |y: int, x: int|
        (if y > 0 {
            seq![group_pair(grid, (y, x), (y - 1, x))]
        } else {
            Seq::empty()
        }) + (if x > 0 {
            seq![group_pair(grid, (y, x), (y, x - 1))]
        } else {
            Seq::empty()
        })
}

/// What the letter tile at the place `i` of a sorted list asks: its cell is
/// in the group of its letter; and behind the last tile of a group, that
/// the cells of the group are connected.
pub open spec fn member_fn(grid: int, keys: Seq<LetterKey>) -> spec_fn(int) -> Seq<Posting> {
    |i: int|
        seq![
            Posting::Post(f_eq(t_cell(grid, keys[i].1, keys[i].2), t_const(group_of(keys, i)))),
        ] + (if i == keys.len() - 1 || keys[i + 1].0 != keys[i].0 {
            seq![
                Posting::Connected(
                    GridExpr::IntEquals { grid: grid as usize, value: group_of(keys, i) as i32 },
                ),
            ]
        } else {
            Seq::empty()
        })
}

/// What the letters ask: a new integer grid `grid` holds for each cell the
/// number of its group, or -1; cells without a colour are in no group;
/// neighbours are in the same group if and only if they have the same
/// colour; the cells with the same letter are in the group of that letter,
/// and each group is connected. The letters are numbered in their order.
pub open spec fn letters_postings(grid: int, height: int, width: int, keys: Seq<LetterKey>)
    -> Seq<Posting> {
    seq![Posting::NewIntGrid { grid, lo: -1, hi: group_count(keys) - 1 }] + over_cells(
        height,
        width,
        blank_fn(grid),
    ) + over_cells(height, width, group_pairs_fn(grid)) + concat_upto(
        keys.len() as int,
        member_fn(grid, keys),
    )
}

/// The letter tiles lie on the board, and they can be counted in an `i32`.
pub open spec fn letters_fit(tiles: Seq<LetterTile>, height: int, width: int) -> bool {
    &&& tiles.len() <= i32::MAX
    &&& forall|i: int|
        0 <= i < tiles.len() ==> (#[trigger] tiles[i]).y < height && tiles[i].x < width
}

impl Session {
    /// The session after more postings that name no new grid.
    pub open spec fn post(self, ps: Seq<Posting>) -> Session {
        Session { program: self.program + ps, ..self }
    }

    /// The session after the tiles of the board, unless a tile is fixed to
    /// gray.
    pub open spec fn add_tiles(self, tiles: Seq<Seq<Tile>>) -> Result<Session, SolveError> {
        if has_gray_fixed(tiles, self.height, self.width) {
            Err(SolveError::GrayTileFixed)
        } else {
            Ok(self.post(tiles_postings(tiles, self.height, self.width)))
        }
    }

    /// The session after the connections of a list, one after the other.
    pub open spec fn add_connections(self, cs: Seq<Connection>) -> Session {
        self.post(concat_upto(cs.len() as int, connection_fn(cs)))
    }

    /// The session after the rule that all cells of a colour are connected,
    /// unless the colour is gray.
    pub open spec fn add_connect_all(self, color: Color) -> Result<Session, SolveError> {
        if color == Color::Undecided {
            Err(SolveError::ConnectAllGray)
        } else {
            Ok(
                self.post(
                    seq![Posting::Connected(GridExpr::Bools { grid: channel(color) as usize })],
                ),
            )
        }
    }

    /// The session after what both colours being connected asks besides.
    pub open spec fn add_connect_all_both_color(self) -> Session {
        self.post(both_colors_postings(self.height, self.width))
    }

    /// The session after the minesweeper clues of a list.
    pub open spec fn add_minesweeper(self, tiles: Seq<MinesweeperTile>) -> Session {
        self.post(
            concat_upto(
                tiles.len() as int,
                minesweeper_fn(tiles, self.height, self.width, self.off_by),
            ),
        )
    }

    /// The session after the darts of a list.
    pub open spec fn add_darts(self, tiles: Seq<DartTile>) -> Session {
        self.post(
            concat_upto(tiles.len() as int, dart_fn(tiles, self.height, self.width, self.off_by)),
        )
    }

    /// The session after the viewpoints of a list.
    pub open spec fn add_viewpoints(self, tiles: Seq<ViewpointTile>) -> Session {
        self.post(
            concat_upto(
                tiles.len() as int,
                viewpoint_fn(tiles, self.height, self.width, self.off_by),
            ),
        )
    }

    /// The session after a symmetric region whose centre is the point
    /// `(sy, sx)` of the half-cell grid, in the cell `(y, x)`, unless that
    /// cell is off the board.
    pub open spec fn add_lotus_or_galaxy(
        self,
        y: int,
        x: int,
        sy: int,
        sx: int,
        ori: Option<Orientation>,
    ) -> Result<Session, SolveError> {
        if !(y < self.height && x < self.width) {
            Err(SolveError::LotusOutOfBounds)
        } else {
            Ok(
                Session {
                    program: self.program + region_postings(
                        self.bool_grids,
                        y,
                        x,
                        sy,
                        sx,
                        ori,
                        self.height,
                        self.width,
                    ),
                    bool_grids: self.bool_grids + 1,
                    ..self
                },
            )
        }
    }

    /// The session after one lotus, unless its centre lies where its
    /// orientation does not allow, or off the board.
    pub open spec fn add_lotus(self, t: LotusTile) -> Result<Session, SolveError> {
        if !lotus_valid(t) {
            Err(SolveError::LotusInvalidPosition)
        } else {
            self.add_lotus_or_galaxy(
                t.y as int / 2,
                t.x as int / 2,
                t.y as int,
                t.x as int,
                Some(t.orientation),
            )
        }
    }

    /// The session after the first `n` lotuses of a list, unless one of them
    /// is refused.
    pub open spec fn add_lotuses_upto(self, tiles: Seq<LotusTile>, n: int) -> Result<
        Session,
        SolveError,
    >
        decreases n,
    {
        if n <= 0 {
            Ok(self)
        } else {
            match self.add_lotuses_upto(tiles, n - 1) {
                Ok(s) => s.add_lotus(tiles[n - 1]),
                Err(e) => Err(e),
            }
        }
    }

    /// The session after the lotuses of a list, unless one of them is
    /// refused.
    pub open spec fn add_lotuses(self, tiles: Seq<LotusTile>) -> Result<Session, SolveError> {
        self.add_lotuses_upto(tiles, tiles.len() as int)
    }

    /// The session after one galaxy, unless its centre is a corner of four
    /// cells, or off the board.
    pub open spec fn add_galaxy(self, t: GalaxyTile) -> Result<Session, SolveError> {
        if t.x % 2 == 1 && t.y % 2 == 1 {
            Err(SolveError::GalaxyOnCorner)
        } else {
            self.add_lotus_or_galaxy(t.y as int / 2, t.x as int / 2, t.y as int, t.x as int, None)
        }
    }

    /// The session after the first `n` galaxies of a list, unless one of
    /// them is refused.
    pub open spec fn add_galaxies_upto(self, tiles: Seq<GalaxyTile>, n: int) -> Result<
        Session,
        SolveError,
    >
        decreases n,
    {
        if n <= 0 {
            Ok(self)
        } else {
            match self.add_galaxies_upto(tiles, n - 1) {
                Ok(s) => s.add_galaxy(tiles[n - 1]),
                Err(e) => Err(e),
            }
        }
    }

    /// The session after the galaxies of a list, unless one of them is
    /// refused.
    pub open spec fn add_galaxies(self, tiles: Seq<GalaxyTile>) -> Result<Session, SolveError> {
        self.add_galaxies_upto(tiles, tiles.len() as int)
    }

    /// The session after a forbidden pattern: none of the images of its
    /// coloured part lies anywhere on the board. A pattern without a
    /// coloured tile is refused.
    pub open spec fn add_forbidden_pattern(self, p: Seq<Seq<Tile>>) -> Result<
        Session,
        SolveError,
    > {
        if !has_color(p) {
            Err(SolveError::EmptyForbiddenPattern)
        } else {
            Ok(self.post(forbidden_postings(enumeration(crop(p)), self.height, self.width)))
        }
    }

    /// The session after the sizes of regions: the area clues, the size of
    /// the white regions and the size of the black regions, as far as they
    /// are given. Nothing is posted where none is given. Two area clues on
    /// one cell are refused.
    pub open spec fn add_area_numbers(
        self,
        area: Option<Seq<AreaNumberTile>>,
        light: Option<int>,
        dark: Option<int>,
    ) -> Result<Session, SolveError> {
        if area is None && light is None && dark is None {
            Ok(self)
        } else if area is Some && has_duplicate(area->Some_0) {
            Err(SolveError::DuplicateAreaNumber)
        } else {
            Ok(
                Session {
                    program: self.program + area_postings(
                        self.int_grids,
                        self.height,
                        self.width,
                        area,
                        light,
                        dark,
                        self.off_by,
                    ),
                    int_grids: self.int_grids + 1,
                    ..self
                },
            )
        }
    }

    /// The session after the letter tiles of a list.
    pub open spec fn add_letters(self, tiles: Seq<LetterTile>) -> Session {
        Session {
            program: self.program + letters_postings(
                self.int_grids,
                self.height,
                self.width,
                sorted_keys(tiles),
            ),
            int_grids: self.int_grids + 1,
            ..self
        }
    }

    /// The session after the rule that the closed blocks of a colour have
    /// the same shape.
    pub open spec fn add_same_shape(self, color: Color) -> Session {
        self.post(
            seq![Posting::Shapes { kind: ConstraintType::AllEqual, grid: channel(color) }],
        )
    }

    /// The session after the rule that the closed blocks of a colour have
    /// different shapes.
    pub open spec fn add_unique_shape(self, color: Color) -> Session {
        self.post(
            seq![Posting::Shapes { kind: ConstraintType::AllDifferent, grid: channel(color) }],
        )
    }

    /// The session after the rule that a colour has `count` cells.
    pub open spec fn add_cell_count(self, color: Color, count: int) -> Session {
        self.post(
            seq![
                Posting::Post(
                    f_eq(
                        Term::CountTrue(
                            box_formulas(channel(color), 0, self.height, 0, self.width),
                        ),
                        t_const(count),
                    ),
                ),
            ],
        )
    }
}

} // verus!

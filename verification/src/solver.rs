//! The solving session: it takes the rules of a puzzle one family at a time
//! and writes the program that a constraint solver is to run, and it reads
//! the solver's answer back into colours.

use crate::encoding::{
    apart, area_cell_fn, area_cell_postings, area_cell_size, area_clue, blank, blank_fn,
    group_count, group_of, group_pair, group_pairs_fn, letters_fit, letters_postings, member_fn, area_fits,
    area_reach, area_taken, area_postings, area_size_fn, black,
    block_pairs_fn, bounds, box_fn, box_formulas, cell_formulas, channel, checker_fn,
    clue_at, clue_fits, clue_formula, col_colored, colored, connection_fn, connections_fit, crop, cropped, cut_fn,
    dart_fn, darts_fit, differ, edge_fn, gray_fixed, has_color, has_duplicate, has_gray_fixed,
    lemma_tiles_fit, no_gray_before, tiles_fit,
    image,
    initial_program, initial_session, is_bounds, literal_fn, literals, lotus_valid,
    minesweeper_fits, minesweeper_fn, moved, pair_postings, pattern_postings, patterns_fn,
    placement_fn, ray, ray_len, region_postings, ring, ring_changes, row_colored, run, seen, step,
    symmetry_fn, tile_fn, viewpoint_fn, viewpoints_fit, white, Session, BLACK_GRID, WHITE_GRID,
};
use crate::error::SolveError;
use crate::expr::{
    f_var, formulas_of, ints_of, opt_terms_of, pairs_of, postings_of, push_command, push_expr,
    BoolExpr, Command, ConstraintType, GridExpr, IntExpr, IntVar, Posting, Term,
};
use crate::letters::{key_of, keys_of, same_letter, sort_letters, sorted_keys, LetterKey};
use crate::patterns::{enumerate_patterns, grids_of, is_pattern};
use crate::puzzle::{
    grid_of, is_grid, AreaNumberTile, Color, Connection, DartTile, GalaxyTile, LetterTile,
    LotusTile, MinesweeperTile, Orientation, Tile, ViewpointTile,
};
use crate::seqs::{
    concat_upto, lemma_cell_next, lemma_cell_step, lemma_concat_step, lemma_row_next,
    lemma_row_step, over_cells, row_upto, rows_upto,
};
use vstd::prelude::*;

verus! {

/// A solving session.
#[derive(Debug)]
pub struct LogicPadSolver {
    height: usize,
    width: usize,
    off_by: Option<i32>,
    commands: Vec<Command>,
    bool_grids: usize,
    int_grids: usize,
}

/// The distance by which clues are off, as a mathematical integer.
pub open spec fn off_by_of(off_by: Option<i32>) -> Option<int> {
    match off_by {
        Some(k) => Some(k as int),
        None => None,
    }
}

impl View for LogicPadSolver {
    type V = Session;

    closed spec fn view(&self) -> Session {
        Session {
            height: self.height as int,
            width: self.width as int,
            off_by: off_by_of(self.off_by),
            program: postings_of(self.commands@),
            bool_grids: self.bool_grids as int,
            int_grids: self.int_grids as int,
        }
    }
}

/// On a board whose cells can be counted in an `i32`, so can the rows and
/// the columns, if the board has a cell at all.
pub proof fn lemma_board_bounds(height: int, width: int, y: int, x: int)
    requires
        0 <= y < height,
        0 <= x < width,
        height * width <= i32::MAX,
    ensures
        height <= i32::MAX,
        width <= i32::MAX,
        0 <= y * width + x < height * width,
{
    assert(height <= height * width) by (nonlinear_arith)
        requires
            height >= 1,
            width >= 1,
    ;
    assert(width <= height * width) by (nonlinear_arith)
        requires
            height >= 1,
            width >= 1,
    ;
    assert(0 <= y * width + x < height * width) by (nonlinear_arith)
        requires
            0 <= y < height,
            0 <= x < width,
    ;
}

/// The grid of a colour that is not gray.
fn channel_of(color: Color) -> (r: usize)
    ensures
        r == channel(color),
{
    match color {
        Color::Black => BLACK_GRID,
        _ => WHITE_GRID,
    }
}

/// The variables of a grid in the rows `y0..y1` and the columns `x0..x1`.
fn box_vars(grid: usize, y0: usize, y1: usize, x0: usize, x1: usize) -> (r: Vec<BoolExpr>)
    requires
        y0 <= y1,
        x0 <= x1,
    ensures
        formulas_of(r@) == box_formulas(grid as int, y0 as int, y1 as int, x0 as int, x1 as int),
{
    let mut r: Vec<BoolExpr> = Vec::new();
    let ghost f = box_fn(grid as int, y0 as int, x0 as int);
    let ghost w = x1 - x0;
    assert(formulas_of(r@) =~= rows_upto(0, w, f));
    for y in y0..y1
        invariant
            y0 <= y1,
            x0 <= x1,
            w == x1 - x0,
            f == box_fn(grid as int, y0 as int, x0 as int),
            formulas_of(r@) == rows_upto(y - y0, w, f),
    {
        proof {
            lemma_row_next(y - y0, w, f);
        }
        for x in x0..x1
            invariant
                y0 <= y < y1,
                x0 <= x1,
                w == x1 - x0,
                f == box_fn(grid as int, y0 as int, x0 as int),
                formulas_of(r@) == rows_upto(y - y0, w, f) + row_upto(y - y0, x - x0, f),
        {
            push_expr(&mut r, BoolExpr::var(grid, y, x));
            proof {
                lemma_cell_next(y - y0, x - x0, w, f);
                assert(formulas_of(r@) =~= rows_upto(y - y0, w, f) + row_upto(y - y0, x - x0, f)
                    + f(y - y0, x - x0));
            }
        }
    }
    r
}

/// The variables of a grid at the cells of a list.
fn cell_vars(grid: usize, cells: &Vec<(usize, usize)>) -> (r: Vec<BoolExpr>)
    ensures
        formulas_of(r@) == cell_formulas(grid as int, pairs_of(cells@)),
{
    let mut r: Vec<BoolExpr> = Vec::new();
    for i in 0..cells.len()
        invariant
            r@.len() == i,
            forall|k: int| 0 <= k < i ==> (#[trigger] r@[k])@ == cell_formulas(grid as int, pairs_of(cells@))[k],
    {
        r.push(BoolExpr::var(grid, cells[i].0, cells[i].1));
    }
    proof {
        assert(formulas_of(r@) =~= cell_formulas(grid as int, pairs_of(cells@)));
    }
    r
}

/// What a numeric clue asks of a count.
fn clue_expr(count: IntExpr, number: i32, off_by: Option<i32>) -> (r: BoolExpr)
    requires
        clue_fits(number as int, off_by_of(off_by)),
    ensures
        r@ == clue_formula(count@, number as int, off_by_of(off_by)),
{
    match off_by {
        None => BoolExpr::eq(count, IntExpr::constant(number)),
        Some(k) => {
            let again = count.duplicate();
            BoolExpr::or2(
                BoolExpr::eq(count, IntExpr::constant(number + k)),
                BoolExpr::eq(again, IntExpr::constant(number - k)),
            )
        },
    }
}

impl LogicPadSolver {
    /// The session is in order: its cells can be counted in an `i32`, and it
    /// has named no more grids than its program has commands.
    pub closed spec fn wf(&self) -> bool {
        &&& self.height * self.width <= i32::MAX
        &&& 2 <= self.bool_grids <= self.commands@.len()
        &&& self.int_grids <= self.commands@.len()
    }

    /// The session is `before` with the postings `ps` behind its program.
    pub open spec fn extends(&self, before: Session, ps: Seq<Posting>) -> bool {
        self@ == before.post(ps)
    }

    /// A well-formed session has a board whose cells can be counted in an
    /// `i32`, and at least the two colour grids.
    pub proof fn lemma_wf(&self)
        requires
            self.wf(),
        ensures
            0 <= self@.height,
            0 <= self@.width,
            self@.height * self@.width <= i32::MAX,
            2 <= self@.bool_grids,
            0 <= self@.int_grids,
    {
    }

    /// Begins a session for a board of `height` rows and `width` columns.
    pub fn new(height: usize, width: usize, off_by: Option<i32>) -> (r: LogicPadSolver)
        requires
            height * width <= i32::MAX,
        ensures
            r.wf(),
            r@ == initial_session(height as int, width as int, off_by_of(off_by)),
    {
        let mut commands: Vec<Command> = Vec::new();
        assert(postings_of(commands@) =~= Seq::empty());
        push_command(&mut commands, Command::NewBoolGrid { grid: WHITE_GRID });
        push_command(&mut commands, Command::NewBoolGrid { grid: BLACK_GRID });
        push_command(&mut commands, Command::AnswerKey { grid: WHITE_GRID });
        push_command(&mut commands, Command::AnswerKey { grid: BLACK_GRID });
        assert(postings_of(commands@) =~= initial_program());
        assert(commands@.len() == postings_of(commands@).len());
        LogicPadSolver { height, width, off_by, commands, bool_grids: 2, int_grids: 0 }
    }

    /// The number of rows of the board.
    pub fn height(&self) -> (r: usize)
        ensures
            r == self@.height,
    {
        self.height
    }

    /// The number of columns of the board.
    pub fn width(&self) -> (r: usize)
        ensures
            r == self@.width,
    {
        self.width
    }

    /// The distance by which numeric clues are off.
    pub fn off_by(&self) -> (r: Option<i32>)
        ensures
            off_by_of(r) == self@.off_by,
    {
        self.off_by
    }

    /// The program written so far.
    pub fn commands(&self) -> (r: &Vec<Command>)
        ensures
            postings_of(r@) == self@.program,
    {
        &self.commands
    }

    /// Writes a command that names no grid.
    fn emit(&mut self, c: Command)
        requires
            old(self).wf(),
        ensures
            final(self).wf(),
            final(self)@ == old(self)@.post(seq![c@]),
            forall|b: Session, ps: Seq<Posting>| #[trigger]
                old(self).extends(b, ps) ==> final(self).extends(b, ps.push(c@)),
    {
        push_command(&mut self.commands, c);
        proof {
            assert(self@.program =~= old(self)@.program + seq![c@]);
            assert forall|b: Session, ps: Seq<Posting>| #[trigger]
                old(self).extends(b, ps) implies self.extends(b, ps.push(c@)) by {
                assert(b.program + ps.push(c@) =~= b.program + ps + seq![c@]);
            }
        }
    }

    /// Posts that the expression is true.
    fn post(&mut self, e: BoolExpr)
        requires
            old(self).wf(),
        ensures
            final(self).wf(),
            final(self)@ == old(self)@.post(seq![Posting::Post(e@)]),
            forall|b: Session, ps: Seq<Posting>| #[trigger]
                old(self).extends(b, ps) ==> final(self).extends(b, ps.push(Posting::Post(e@))),
    {
        self.emit(Command::Post(e));
    }

    /// The session extends itself by nothing.
    proof fn lemma_extends_self(&self)
        ensures
            self.extends(self@, Seq::empty()),
    {
        assert(self@.program + Seq::<Posting>::empty() =~= self@.program);
    }

    /// The variable that says that the cell `(y, x)` is white.
    fn white(y: usize, x: usize) -> (r: BoolExpr)
        ensures
            r@ == white(y as int, x as int),
    {
        BoolExpr::var(WHITE_GRID, y, x)
    }

    /// The variable that says that the cell `(y, x)` is black.
    fn black(y: usize, x: usize) -> (r: BoolExpr)
        ensures
            r@ == black(y as int, x as int),
    {
        BoolExpr::var(BLACK_GRID, y, x)
    }

    /// Posts what the tiles of the board ask of their cells. A tile fixed to
    /// gray is refused, and the session stays as it was; the rows behind
    /// the row of that tile are not looked at.
    pub fn add_tiles(&mut self, tiles: &[Vec<Tile>]) -> (r: Result<(), SolveError>)
        requires
            old(self).wf(),
            tiles_fit(grid_of(tiles@), old(self)@.height, old(self)@.width),
        ensures
            final(self).wf(),
            match old(self)@.add_tiles(grid_of(tiles@)) {
                Ok(s) => r == Ok::<(), SolveError>(()) && final(self)@ == s,
                Err(e) => r == Err::<(), SolveError>(e) && final(self)@ == old(self)@,
            },
    {
        let height = self.height;
        let width = self.width;
        let ghost g = grid_of(tiles@);
        for y in 0..height
            invariant
                *self == *old(self),
                self.wf(),
                height == self.height,
                width == self.width,
                g == grid_of(tiles@),
                tiles_fit(g, height as int, width as int),
                no_gray_before(g, y as int, width as int),
        {
            assert(g[y as int].len() == width);
            for x in 0..width
                invariant
                    *self == *old(self),
                    self.wf(),
                    height == self.height,
                    width == self.width,
                    y < height,
                    g == grid_of(tiles@),
                    tiles@.len() == height,
                    g[y as int].len() == width,
                    no_gray_before(g, y as int, width as int),
                    forall|j: int| 0 <= j < x ==> !gray_fixed(#[trigger] g[y as int][j]),
            {
                let tile = &tiles[y][x];
                if tile.exists && tile.fixed && tile.color == Color::Undecided {
                    assert(gray_fixed(g[y as int][x as int]));
                    return Err(SolveError::GrayTileFixed);
                }
            }
        }
        let ghost f = tile_fn(g);
        proof {
            assert(!has_gray_fixed(g, height as int, width as int));
            lemma_tiles_fit(g, height as int, width as int);
            self.lemma_extends_self();
        }
        for y in 0..height
            invariant
                self.wf(),
                height == self.height,
                width == self.width,
                g == grid_of(tiles@),
                f == tile_fn(g),
                is_grid(g, height as int, width as int),
                !has_gray_fixed(g, height as int, width as int),
                self.extends(old(self)@, rows_upto(y as int, width as int, f)),
        {
            proof {
                lemma_row_next(y as int, width as int, f);
            }
            for x in 0..width
                invariant
                    self.wf(),
                    height == self.height,
                    width == self.width,
                    y < height,
                    g == grid_of(tiles@),
                    f == tile_fn(g),
                    is_grid(g, height as int, width as int),
                    !has_gray_fixed(g, height as int, width as int),
                    self.extends(
                        old(self)@,
                        rows_upto(y as int, width as int, f) + row_upto(y as int, x as int, f),
                    ),
            {
                assert(g[y as int].len() == width);
                let tile = &tiles[y][x];
                let ghost sofar = rows_upto(y as int, width as int, f) + row_upto(
                    y as int,
                    x as int,
                    f,
                );
                if !tile.exists {
                    self.post(BoolExpr::not(Self::black(y, x)));
                    self.post(BoolExpr::not(Self::white(y, x)));
                    assert(sofar.push(f(y as int, x as int)[0]).push(f(y as int, x as int)[1])
                        =~= sofar + f(y as int, x as int));
                } else {
                    self.post(BoolExpr::xor(Self::black(y, x), Self::white(y, x)));
                    if tile.fixed {
                        assert(!gray_fixed(g[y as int][x as int]));
                        match tile.color {
                            Color::White => {
                                self.post(Self::white(y, x));
                                assert(sofar.push(f(y as int, x as int)[0]).push(
                                    f(y as int, x as int)[1],
                                ) =~= sofar + f(y as int, x as int));
                            },
                            Color::Black => {
                                self.post(Self::black(y, x));
                                assert(sofar.push(f(y as int, x as int)[0]).push(
                                    f(y as int, x as int)[1],
                                ) =~= sofar + f(y as int, x as int));
                            },
                            Color::Undecided => {},
                        }
                    } else {
                        assert(sofar.push(f(y as int, x as int)[0]) =~= sofar + f(
                            y as int,
                            x as int,
                        ));
                    }
                }
                proof {
                    lemma_cell_next(y as int, x as int, width as int, f);
                }
            }
        }
        Ok(())
    }

    /// Posts that the two cells of each connection have the same colour.
    pub fn add_connections(&mut self, connections: &[Connection])
        requires
            old(self).wf(),
            connections_fit(connections@, old(self)@.height, old(self)@.width),
        ensures
            final(self).wf(),
            final(self)@ == old(self)@.add_connections(connections@),
    {
        let ghost f = connection_fn(connections@);
        proof {
            self.lemma_extends_self();
        }
        for i in 0..connections.len()
            invariant
                self.wf(),
                f == connection_fn(connections@),
                self.extends(old(self)@, concat_upto(i as int, f)),
        {
            let c = &connections[i];
            let ghost sofar = concat_upto(i as int, f);
            self.post(BoolExpr::iff(Self::white(c.y1, c.x1), Self::white(c.y2, c.x2)));
            self.post(BoolExpr::iff(Self::black(c.y1, c.x1), Self::black(c.y2, c.x2)));
            proof {
                assert(sofar.push(f(i as int)[0]).push(f(i as int)[1]) =~= sofar + f(i as int));
            }
        }
    }

    /// Posts that the cells of a colour are connected. Gray is refused.
    pub fn add_connect_all(&mut self, color: Color) -> (r: Result<(), SolveError>)
        requires
            old(self).wf(),
        ensures
            final(self).wf(),
            match old(self)@.add_connect_all(color) {
                Ok(s) => r == Ok::<(), SolveError>(()) && final(self)@ == s,
                Err(e) => r == Err::<(), SolveError>(e) && final(self)@ == old(self)@,
            },
    {
        match color {
            Color::Undecided => Err(SolveError::ConnectAllGray),
            _ => {
                self.emit(Command::Connected(GridExpr::Bools { grid: channel_of(color) }));
                Ok(())
            },
        }
    }

    /// Posts what a minesweeper clue asks of the box around its cell.
    pub fn add_minesweeper(&mut self, tiles: &[MinesweeperTile])
        requires
            old(self).wf(),
            minesweeper_fits(tiles@, old(self)@.height, old(self)@.width, old(self)@.off_by),
        ensures
            final(self).wf(),
            final(self)@ == old(self)@.add_minesweeper(tiles@),
    {
        let height = self.height;
        let width = self.width;
        let off_by = self.off_by;
        let ghost f = minesweeper_fn(tiles@, height as int, width as int, off_by_of(off_by));
        proof {
            self.lemma_extends_self();
        }
        for i in 0..tiles.len()
            invariant
                self.wf(),
                height == self.height,
                width == self.width,
                off_by == self.off_by,
                minesweeper_fits(tiles@, height as int, width as int, off_by_of(off_by)),
                f == minesweeper_fn(tiles@, height as int, width as int, off_by_of(off_by)),
                self.extends(old(self)@, concat_upto(i as int, f)),
        {
            let y = tiles[i].y;
            let x = tiles[i].x;
            let num = tiles[i].number;
            proof {
                lemma_board_bounds(height as int, width as int, y as int, x as int);
            }
            let ymin = if y > 0 {
                y - 1
            } else {
                0
            };
            let ymax = if y + 2 <= height {
                y + 2
            } else {
                height
            };
            let xmin = if x > 0 {
                x - 1
            } else {
                0
            };
            let xmax = if x + 2 <= width {
                x + 2
            } else {
                width
            };
            let ghost sofar = concat_upto(i as int, f);
            let blacks = IntExpr::count_true(box_vars(BLACK_GRID, ymin, ymax, xmin, xmax));
            self.post(BoolExpr::imp(Self::white(y, x), clue_expr(blacks, num, off_by)));
            let whites = IntExpr::count_true(box_vars(WHITE_GRID, ymin, ymax, xmin, xmax));
            self.post(BoolExpr::imp(Self::black(y, x), clue_expr(whites, num, off_by)));
            proof {
                assert(sofar.push(f(i as int)[0]).push(f(i as int)[1]) =~= sofar + f(i as int));
            }
        }
    }

    /// Posts that the closed blocks of a colour have the same shape.
    pub fn add_same_shape(&mut self, color: Color)
        requires
            old(self).wf(),
            color != Color::Undecided,
        ensures
            final(self).wf(),
            final(self)@ == old(self)@.add_same_shape(color),
    {
        self.emit(Command::Shapes { kind: ConstraintType::AllEqual, grid: channel_of(color) });
    }

    /// Posts that the closed blocks of a colour have different shapes.
    pub fn add_unique_shape(&mut self, color: Color)
        requires
            old(self).wf(),
            color != Color::Undecided,
        ensures
            final(self).wf(),
            final(self)@ == old(self)@.add_unique_shape(color),
    {
        self.emit(Command::Shapes { kind: ConstraintType::AllDifferent, grid: channel_of(color) });
    }

    /// Posts that a colour has `count` cells.
    pub fn add_cell_count(&mut self, color: Color, count: i32)
        requires
            old(self).wf(),
            color != Color::Undecided,
        ensures
            final(self).wf(),
            final(self)@ == old(self)@.add_cell_count(color, count as int),
    {
        let cells = box_vars(channel_of(color), 0, self.height, 0, self.width);
        self.post(BoolExpr::eq(IntExpr::count_true(cells), IntExpr::constant(count)));
    }

    /// The cells on the ray from the cell `(y, x)` in a direction.
    pub fn pointing_cells(&self, y: usize, x: usize, dir: Orientation) -> (r: Vec<(usize, usize)>)
        requires
            self.wf(),
            y < self@.height,
            x < self@.width,
        ensures
            pairs_of(r@) == ray(y as int, x as int, dir, self@.height, self@.width),
    {
        proof {
            lemma_board_bounds(self.height as int, self.width as int, y as int, x as int);
        }
        let h = self.height as i64;
        let w = self.width as i64;
        let (dy, dx): (i64, i64) = match dir {
            Orientation::Down => (1, 0),
            Orientation::Right => (0, 1),
            Orientation::Up => (-1, 0),
            Orientation::Left => (0, -1),
            Orientation::DownLeft => (1, -1),
            Orientation::DownRight => (1, 1),
            Orientation::UpLeft => (-1, -1),
            Orientation::UpRight => (-1, 1),
        };
        let ghost n = ray_len(y as int, x as int, dir, h as int, w as int);
        let ghost cells = ray(y as int, x as int, dir, h as int, w as int);
        let mut cy = y as i64;
        let mut cx = x as i64;
        let mut ret: Vec<(usize, usize)> = Vec::new();
        let mut inside = true;
        while inside
            invariant
                0 <= h <= i32::MAX,
                0 <= w <= i32::MAX,
                (dy as int, dx as int) == step(dir),
                n == ray_len(y as int, x as int, dir, h as int, w as int),
                cells == ray(y as int, x as int, dir, h as int, w as int),
                0 <= y < h,
                0 <= x < w,
                inside ==> ret@.len() <= n,
                !inside ==> ret@.len() == n,
                inside ==> cy == moved(y as int, dy as int, ret@.len() as int),
                inside ==> cx == moved(x as int, dx as int, ret@.len() as int),
                inside ==> 0 <= cy < h && 0 <= cx < w,
                forall|k: int| 0 <= k < ret@.len() ==> pairs_of(ret@)[k] == cells[k],
            decreases n - ret@.len() + if inside { 1int } else { 0int },
        {
            cy = cy + dy;
            cx = cx + dx;
            if 0 <= cy && cy < h && 0 <= cx && cx < w {
                ret.push((cy as usize, cx as usize));
            } else {
                inside = false;
            }
        }
        proof {
            assert(pairs_of(ret@) =~= cells);
        }
        ret
    }

    /// Posts what a dart asks of the cells on its ray.
    pub fn add_darts(&mut self, darts: &[DartTile])
        requires
            old(self).wf(),
            darts_fit(darts@, old(self)@.height, old(self)@.width, old(self)@.off_by),
        ensures
            final(self).wf(),
            final(self)@ == old(self)@.add_darts(darts@),
    {
        let off_by = self.off_by;
        let ghost height = self.height as int;
        let ghost width = self.width as int;
        let ghost f = dart_fn(darts@, height, width, off_by_of(off_by));
        proof {
            self.lemma_extends_self();
        }
        for i in 0..darts.len()
            invariant
                self.wf(),
                height == self.height,
                width == self.width,
                off_by == self.off_by,
                darts_fit(darts@, height, width, off_by_of(off_by)),
                f == dart_fn(darts@, height, width, off_by_of(off_by)),
                self.extends(old(self)@, concat_upto(i as int, f)),
        {
            let y = darts[i].y;
            let x = darts[i].x;
            let num = darts[i].number;
            let cells = self.pointing_cells(y, x, darts[i].orientation);
            let ghost sofar = concat_upto(i as int, f);
            let whites = IntExpr::count_true(cell_vars(WHITE_GRID, &cells));
            self.post(BoolExpr::imp(Self::black(y, x), clue_expr(whites, num, off_by)));
            let blacks = IntExpr::count_true(cell_vars(BLACK_GRID, &cells));
            self.post(BoolExpr::imp(Self::white(y, x), clue_expr(blacks, num, off_by)));
            proof {
                assert(sofar.push(f(i as int)[0]).push(f(i as int)[1]) =~= sofar + f(i as int));
            }
        }
    }

    /// How many cells of a grid are true in a row from a cell on.
    fn run_expr(&self, grid: usize, y: usize, x: usize, dir: Orientation) -> (r: IntExpr)
        requires
            self.wf(),
            y < self@.height,
            x < self@.width,
        ensures
            r@ == run(grid as int, y as int, x as int, dir, self@.height, self@.width),
    {
        let cells = self.pointing_cells(y, x, dir);
        IntExpr::consecutive_prefix_true(cell_vars(grid, &cells))
    }

    /// How many cells of a grid are seen from a cell.
    fn seen_expr(&self, grid: usize, y: usize, x: usize) -> (r: IntExpr)
        requires
            self.wf(),
            y < self@.height,
            x < self@.width,
        ensures
            r@ == seen(grid as int, y as int, x as int, self@.height, self@.width),
    {
        let e = IntExpr::constant(1);
        let e = IntExpr::sum(e, self.run_expr(grid, y, x, Orientation::Up));
        let e = IntExpr::sum(e, self.run_expr(grid, y, x, Orientation::Left));
        let e = IntExpr::sum(e, self.run_expr(grid, y, x, Orientation::Down));
        IntExpr::sum(e, self.run_expr(grid, y, x, Orientation::Right))
    }

    /// Posts what a viewpoint asks of the cells seen from its cell.
    pub fn add_viewpoints(&mut self, viewpoints: &[ViewpointTile])
        requires
            old(self).wf(),
            viewpoints_fit(viewpoints@, old(self)@.height, old(self)@.width, old(self)@.off_by),
        ensures
            final(self).wf(),
            final(self)@ == old(self)@.add_viewpoints(viewpoints@),
    {
        let off_by = self.off_by;
        let ghost height = self.height as int;
        let ghost width = self.width as int;
        let ghost f = viewpoint_fn(viewpoints@, height, width, off_by_of(off_by));
        proof {
            self.lemma_extends_self();
        }
        for i in 0..viewpoints.len()
            invariant
                self.wf(),
                height == self.height,
                width == self.width,
                off_by == self.off_by,
                viewpoints_fit(viewpoints@, height, width, off_by_of(off_by)),
                f == viewpoint_fn(viewpoints@, height, width, off_by_of(off_by)),
                self.extends(old(self)@, concat_upto(i as int, f)),
        {
            let y = viewpoints[i].y;
            let x = viewpoints[i].x;
            let num = viewpoints[i].number;
            let ghost sofar = concat_upto(i as int, f);
            let blacks = self.seen_expr(BLACK_GRID, y, x);
            self.post(BoolExpr::imp(Self::black(y, x), clue_expr(blacks, num, off_by)));
            let whites = self.seen_expr(WHITE_GRID, y, x);
            self.post(BoolExpr::imp(Self::white(y, x), clue_expr(whites, num, off_by)));
            proof {
                assert(sofar.push(f(i as int)[0]).push(f(i as int)[1]) =~= sofar + f(i as int));
            }
        }
    }

    /// The cells on the rim of the board, clockwise from the upper left
    /// corner.
    fn ring_cells(&self) -> (r: Vec<(usize, usize)>)
        requires
            self.wf(),
            self@.height >= 1,
            self@.width >= 1,
        ensures
            pairs_of(r@) == ring(self@.height, self@.width),
            r@.len() >= 1,
    {
        let height = self.height;
        let width = self.width;
        let ghost target = ring(height as int, width as int);
        proof {
            lemma_board_bounds(height as int, width as int, 0, 0);
        }
        let mut circ: Vec<(usize, usize)> = Vec::new();
        for x in 0..width
            invariant
                height >= 1,
                width >= 1,
                target == ring(height as int, width as int),
                circ@.len() == x,
                forall|k: int| 0 <= k < circ@.len() ==> pairs_of(circ@)[k] == target[k],
        {
            circ.push((0, x));
        }
        let mut y: usize = 1;
        while y < height
            invariant
                height >= 1,
                width >= 1,
                1 <= y <= height,
                height <= i32::MAX,
                target == ring(height as int, width as int),
                circ@.len() == width + (y - 1),
                forall|k: int| 0 <= k < circ@.len() ==> pairs_of(circ@)[k] == target[k],
            decreases height - y,
        {
            circ.push((y, width - 1));
            y = y + 1;
        }
        let ghost side = height - 1;
        let mut x = width - 1;
        while x > 0
            invariant
                height >= 1,
                width >= 1,
                x <= width - 1,
                side == height - 1,
                target == ring(height as int, width as int),
                circ@.len() == width + side + (width - 1 - x),
                forall|k: int| 0 <= k < circ@.len() ==> pairs_of(circ@)[k] == target[k],
            decreases x,
        {
            x = x - 1;
            circ.push((height - 1, x));
        }
        if height >= 2 {
            let mut y = height - 1;
            while y > 1
                invariant
                    height >= 2,
                    width >= 1,
                    1 <= y <= height - 1,
                    side == height - 1,
                    target == ring(height as int, width as int),
                    circ@.len() == width + side + (width - 1) + (height - 1 - y),
                    forall|k: int| 0 <= k < circ@.len() ==> pairs_of(circ@)[k] == target[k],
                decreases y,
            {
                y = y - 1;
                circ.push((y, 0));
            }
        }
        proof {
            assert(pairs_of(circ@) =~= target);
        }
        circ
    }

    /// Posts what both colours being connected asks besides: no two by two
    /// box is a checkerboard, and the colour changes at most twice along the
    /// rim of the board.
    pub fn add_connect_all_both_color(&mut self)
        requires
            old(self).wf(),
            old(self)@.height >= 1,
            old(self)@.width >= 1,
        ensures
            final(self).wf(),
            final(self)@ == old(self)@.add_connect_all_both_color(),
    {
        let height = self.height;
        let width = self.width;
        let ghost f = checker_fn();
        proof {
            self.lemma_extends_self();
        }
        for y in 0..(height - 1)
            invariant
                self.wf(),
                height == self.height,
                width == self.width,
                height >= 1,
                width >= 1,
                f == checker_fn(),
                self.extends(old(self)@, rows_upto(y as int, width - 1, f)),
        {
            proof {
                lemma_row_next(y as int, width - 1, f);
            }
            for x in 0..(width - 1)
                invariant
                    self.wf(),
                    height == self.height,
                    width == self.width,
                    height >= 1,
                    width >= 1,
                    y < height - 1,
                    f == checker_fn(),
                    self.extends(
                        old(self)@,
                        rows_upto(y as int, width - 1, f) + row_upto(y as int, x as int, f),
                    ),
            {
                let ghost sofar = rows_upto(y as int, width - 1, f) + row_upto(
                    y as int,
                    x as int,
                    f,
                );
                let mut a: Vec<BoolExpr> = Vec::new();
                a.push(Self::white(y, x));
                a.push(Self::black(y, x + 1));
                a.push(Self::black(y + 1, x));
                a.push(Self::white(y + 1, x + 1));
                assert(formulas_of(a@) =~= seq![
                    white(y as int, x as int),
                    black(y as int, x + 1),
                    black(y + 1, x as int),
                    white(y + 1, x + 1),
                ]);
                self.post(BoolExpr::not(BoolExpr::and(a)));
                let mut b: Vec<BoolExpr> = Vec::new();
                b.push(Self::black(y, x));
                b.push(Self::white(y, x + 1));
                b.push(Self::white(y + 1, x));
                b.push(Self::black(y + 1, x + 1));
                assert(formulas_of(b@) =~= seq![
                    black(y as int, x as int),
                    white(y as int, x + 1),
                    white(y + 1, x as int),
                    black(y + 1, x + 1),
                ]);
                self.post(BoolExpr::not(BoolExpr::and(b)));
                proof {
                    assert(sofar.push(f(y as int, x as int)[0]).push(f(y as int, x as int)[1])
                        =~= sofar + f(y as int, x as int));
                    lemma_cell_next(y as int, x as int, width - 1, f);
                }
            }
        }
        let circ = self.ring_cells();
        let ghost r = pairs_of(circ@);
        let n = circ.len();
        let mut changes: Vec<BoolExpr> = Vec::new();
        for i in 0..n
            invariant
                n == circ@.len(),
                n >= 1,
                r == pairs_of(circ@),
                changes@.len() == i,
                forall|k: int| 0 <= k < i ==> (#[trigger] changes@[k])@ == ring_changes(r)[k],
        {
            let p = circ[i];
            let q = circ[(i + 1) % n];
            let e = BoolExpr::or2(
                BoolExpr::and2(Self::white(p.0, p.1), Self::black(q.0, q.1)),
                BoolExpr::and2(Self::black(p.0, p.1), Self::white(q.0, q.1)),
            );
            assert(e@ == differ(r[i as int], r[(i + 1) % (n as int)]));
            changes.push(e);
        }
        proof {
            assert(formulas_of(changes@) =~= ring_changes(r));
        }
        let ghost sofar = rows_upto(height - 1, width - 1, f);
        let e = BoolExpr::le(IntExpr::count_true(changes), IntExpr::constant(2));
        proof {
            assert(sofar.push(Posting::Post(e@)) =~= sofar + seq![Posting::Post(e@)]);
        }
        self.post(e);
    }

    /// Names and declares a new boolean grid.
    fn new_bool_grid(&mut self) -> (g: usize)
        requires
            old(self).wf(),
        ensures
            final(self).wf(),
            g == old(self)@.bool_grids,
            final(self)@ == (Session {
                program: old(self)@.program + seq![Posting::NewBoolGrid { grid: g as int }],
                bool_grids: g + 1,
                ..old(self)@
            }),
    {
        let g = self.bool_grids;
        push_command(&mut self.commands, Command::NewBoolGrid { grid: g });
        let len = self.commands.len();
        assert(postings_of(self.commands@).len() == len);
        assert(postings_of(old(self).commands@).len() + 1 == len);
        self.bool_grids = g + 1;
        proof {
            assert(self@.program =~= old(self)@.program + seq![
                Posting::NewBoolGrid { grid: g as int },
            ]);
        }
        g
    }

    /// Posts what a pair of neighbours asks of a block.
    fn post_pair(&mut self, grid: usize, p: (usize, usize), q: (usize, usize))
        requires
            old(self).wf(),
        ensures
            final(self).wf(),
            forall|b: Session, ps: Seq<Posting>| #[trigger]
                old(self).extends(b, ps) ==> final(self).extends(
                    b,
                    ps + pair_postings(
                        grid as int,
                        (p.0 as int, p.1 as int),
                        (q.0 as int, q.1 as int),
                    ),
                ),
    {
        let ghost pp = pair_postings(
            grid as int,
            (p.0 as int, p.1 as int),
            (q.0 as int, q.1 as int),
        );
        self.post(
            BoolExpr::imp(
                BoolExpr::and2(Self::black(p.0, p.1), Self::black(q.0, q.1)),
                BoolExpr::iff(BoolExpr::var(grid, p.0, p.1), BoolExpr::var(grid, q.0, q.1)),
            ),
        );
        self.post(
            BoolExpr::imp(
                BoolExpr::and2(Self::white(p.0, p.1), Self::white(q.0, q.1)),
                BoolExpr::iff(BoolExpr::var(grid, p.0, p.1), BoolExpr::var(grid, q.0, q.1)),
            ),
        );
        self.post(
            BoolExpr::imp(
                BoolExpr::xor(Self::black(p.0, p.1), Self::black(q.0, q.1)),
                BoolExpr::or2(
                    BoolExpr::not(BoolExpr::var(grid, p.0, p.1)),
                    BoolExpr::not(BoolExpr::var(grid, q.0, q.1)),
                ),
            ),
        );
        self.post(
            BoolExpr::imp(
                BoolExpr::xor(Self::white(p.0, p.1), Self::white(q.0, q.1)),
                BoolExpr::or2(
                    BoolExpr::not(BoolExpr::var(grid, p.0, p.1)),
                    BoolExpr::not(BoolExpr::var(grid, q.0, q.1)),
                ),
            ),
        );
        proof {
            assert forall|b: Session, ps: Seq<Posting>| #[trigger]
                old(self).extends(b, ps) implies self.extends(b, ps + pp) by {
                assert(ps.push(pp[0]).push(pp[1]).push(pp[2]).push(pp[3]) =~= ps + pp);
            }
        }
    }

    /// The image of a cell under the symmetry of a lotus or a galaxy.
    fn image_of(ori: Option<Orientation>, sy: i64, sx: i64, y: i64, x: i64) -> (r: (i64, i64))
        requires
            0 <= sy <= u32::MAX,
            0 <= sx <= u32::MAX,
            0 <= y <= i32::MAX,
            0 <= x <= i32::MAX,
        ensures
            (r.0 as int, r.1 as int) == image(ori, sy as int, sx as int, y as int, x as int),
    {
        match ori {
            Some(Orientation::Down) | Some(Orientation::Up) => (y, sx - x),
            Some(Orientation::Left) | Some(Orientation::Right) => (sy - y, x),
            Some(Orientation::DownLeft) | Some(Orientation::UpRight) => (
                (sx + sy) / 2 - x,
                (sx + sy) / 2 - y,
            ),
            Some(Orientation::DownRight) | Some(Orientation::UpLeft) => {
                let d = sy - sx;
                let hd = if d >= 0 {
                    d / 2
                } else {
                    -((-d) / 2)
                };
                let e = sx - sy;
                let he = if e >= 0 {
                    e / 2
                } else {
                    -((-e) / 2)
                };
                (hd + x, he + y)
            },
            None => (sy - y, sx - x),
        }
    }

    /// Posts what a symmetric region asks: a lotus with its orientation, or
    /// a galaxy where there is none. The centre is the point `(sy, sx)` of
    /// the half-cell grid, which lies in the cell `(y, x)`. A centre off the
    /// board is refused, and the session stays as it was.
    pub fn add_lotus_or_galaxy(
        &mut self,
        y: usize,
        x: usize,
        sy: usize,
        sx: usize,
        ori: Option<Orientation>,
    ) -> (r: Result<(), SolveError>)
        requires
            old(self).wf(),
            y == sy / 2,
            x == sx / 2,
        ensures
            final(self).wf(),
            match old(self)@.add_lotus_or_galaxy(y as int, x as int, sy as int, sx as int, ori) {
                Ok(s) => r == Ok::<(), SolveError>(()) && final(self)@ == s,
                Err(e) => r == Err::<(), SolveError>(e) && final(self)@ == old(self)@,
            },
    {
        let height = self.height;
        let width = self.width;
        if !(y < height && x < width) {
            return Err(SolveError::LotusOutOfBounds);
        }
        proof {
            lemma_board_bounds(height as int, width as int, y as int, x as int);
        }
        let g = self.new_bool_grid();
        let ghost base = self@;
        proof {
            self.lemma_extends_self();
        }
        self.emit(Command::Connected(GridExpr::Bools { grid: g }));
        self.post(BoolExpr::var(g, y, x));
        let ghost head = Seq::<Posting>::empty().push(
            Posting::Connected(GridExpr::Bools { grid: g }),
        ).push(Posting::Post(f_var(g as int, y as int, x as int)));
        let ghost f = block_pairs_fn(g as int);
        proof {
            assert(head + rows_upto(0, width as int, f) =~= head);
        }
        for cy in 0..height
            invariant
                self.wf(),
                height == self.height,
                width == self.width,
                f == block_pairs_fn(g as int),
                self.extends(base, head + rows_upto(cy as int, width as int, f)),
        {
            proof {
                lemma_row_step(head, cy as int, width as int, f);
            }
            for cx in 0..width
                invariant
                    self.wf(),
                    height == self.height,
                    width == self.width,
                    cy < height,
                    f == block_pairs_fn(g as int),
                    self.extends(
                        base,
                        head + rows_upto(cy as int, width as int, f) + row_upto(
                            cy as int,
                            cx as int,
                            f,
                        ),
                    ),
            {
                let ghost sofar = head + rows_upto(cy as int, width as int, f) + row_upto(
                    cy as int,
                    cx as int,
                    f,
                );
                if cy > 0 {
                    self.post_pair(g, (cy, cx), ((cy - 1), cx));
                }
                if cx > 0 {
                    self.post_pair(g, (cy, cx), (cy, (cx - 1)));
                }
                proof {
                    let a = if cy > 0 {
                        pair_postings(g as int, (cy as int, cx as int), (cy - 1, cx as int))
                    } else {
                        Seq::empty()
                    };
                    let b = if cx > 0 {
                        pair_postings(g as int, (cy as int, cx as int), (cy as int, cx - 1))
                    } else {
                        Seq::empty()
                    };
                    assert(sofar + a + b =~= sofar + f(cy as int, cx as int));
                    assert(sofar + a =~= sofar + a + Seq::<Posting>::empty());
                    assert(sofar =~= sofar + Seq::<Posting>::empty());
                    lemma_cell_step(head, cy as int, cx as int, width as int, f);
                }
            }
        }
        let ghost mid = head + rows_upto(height as int, width as int, f);
        let ghost sf = symmetry_fn(
            g as int,
            ori,
            sy as int,
            sx as int,
            height as int,
            width as int,
        );
        proof {
            assert(mid + rows_upto(0, width as int, sf) =~= mid);
        }
        for cy in 0..height
            invariant
                self.wf(),
                height == self.height,
                width == self.width,
                height * width <= i32::MAX,
                sy / 2 < height,
                sx / 2 < width,
                sf == symmetry_fn(g as int, ori, sy as int, sx as int, height as int, width as int),
                self.extends(base, mid + rows_upto(cy as int, width as int, sf)),
        {
            proof {
                lemma_row_step(mid, cy as int, width as int, sf);
            }
            for cx in 0..width
                invariant
                    self.wf(),
                    height == self.height,
                    width == self.width,
                    height * width <= i32::MAX,
                    sy / 2 < height,
                    sx / 2 < width,
                    cy < height,
                    sf == symmetry_fn(
                        g as int,
                        ori,
                        sy as int,
                        sx as int,
                        height as int,
                        width as int,
                    ),
                    self.extends(
                        base,
                        mid + rows_upto(cy as int, width as int, sf) + row_upto(
                            cy as int,
                            cx as int,
                            sf,
                        ),
                    ),
            {
                let ghost sofar = mid + rows_upto(cy as int, width as int, sf) + row_upto(
                    cy as int,
                    cx as int,
                    sf,
                );
                proof {
                    lemma_board_bounds(height as int, width as int, cy as int, cx as int);
                }
                let (y2, x2) = Self::image_of(ori, sy as i64, sx as i64, cy as i64, cx as i64);
                if !(0 <= y2 && y2 < height as i64 && 0 <= x2 && x2 < width as i64) {
                    self.post(BoolExpr::not(BoolExpr::var(g, cy, cx)));
                    proof {
                        assert(sofar.push(sf(cy as int, cx as int)[0]) =~= sofar + sf(
                            cy as int,
                            cx as int,
                        ));
                    }
                } else if (cy as i64) < y2 || (cy as i64 == y2 && (cx as i64) < x2) {
                    self.post(
                        BoolExpr::iff(
                            BoolExpr::var(g, cy, cx),
                            BoolExpr::var(g, y2 as usize, x2 as usize),
                        ),
                    );
                    proof {
                        assert(sofar.push(sf(cy as int, cx as int)[0]) =~= sofar + sf(
                            cy as int,
                            cx as int,
                        ));
                    }
                } else {
                    proof {
                        assert(sofar =~= sofar + sf(cy as int, cx as int));
                    }
                }
                proof {
                    lemma_cell_step(mid, cy as int, cx as int, width as int, sf);
                }
            }
        }
        proof {
            let all = mid + rows_upto(height as int, width as int, sf);
            assert(base.program + all =~= old(self)@.program + region_postings(
                g as int,
                y as int,
                x as int,
                sy as int,
                sx as int,
                ori,
                height as int,
                width as int,
            ));
        }
        Ok(())
    }

    /// Whether the centre of a lotus lies where its orientation allows.
    fn lotus_is_valid(t: &LotusTile) -> (r: bool)
        ensures
            r == lotus_valid(*t),
    {
        match t.orientation {
            Orientation::Down | Orientation::Up => t.y % 2 == 0,
            Orientation::Left | Orientation::Right => t.x % 2 == 0,
            _ => t.x % 2 == 0 && t.y % 2 == 0,
        }
    }

    /// Posts what the lotuses of a list ask. The first lotus that lies where
    /// its orientation does not allow, or off the board, is refused, and the
    /// session stays as it was.
    pub fn add_lotuses(&mut self, lotuses: &[LotusTile]) -> (r: Result<(), SolveError>)
        requires
            old(self).wf(),
        ensures
            final(self).wf(),
            match old(self)@.add_lotuses(lotuses@) {
                Ok(s) => r == Ok::<(), SolveError>(()) && final(self)@ == s,
                Err(e) => r == Err::<(), SolveError>(e) && final(self)@ == old(self)@,
            },
    {
        let height = self.height;
        let width = self.width;
        let ghost start = self@;
        let n = lotuses.len();
        for i in 0..n
            invariant
                *self == *old(self),
                self.wf(),
                start == self@,
                n == lotuses@.len(),
                height == self.height,
                width == self.width,
                start.add_lotuses_upto(lotuses@, i as int) is Ok,
        {
            let t = &lotuses[i];
            proof {
                lemma_lotuses_keep_board(start, lotuses@, i as int);
            }
            if !Self::lotus_is_valid(t) {
                proof {
                    lemma_lotuses_refused(start, lotuses@, i + 1, n as int);
                }
                return Err(SolveError::LotusInvalidPosition);
            }
            if !(t.y / 2 < height && t.x / 2 < width) {
                proof {
                    lemma_lotuses_refused(start, lotuses@, i + 1, n as int);
                }
                return Err(SolveError::LotusOutOfBounds);
            }
        }
        for i in 0..n
            invariant
                self.wf(),
                n == lotuses@.len(),
                start == old(self)@,
                start.add_lotuses_upto(lotuses@, n as int) is Ok,
                start.add_lotuses_upto(lotuses@, i as int) == Ok::<Session, SolveError>(self@),
        {
            let t = &lotuses[i];
            proof {
                if start.add_lotuses_upto(lotuses@, i + 1) is Err {
                    lemma_lotuses_refused(start, lotuses@, i + 1, n as int);
                }
            }
            let r = self.add_lotus_or_galaxy(t.y / 2, t.x / 2, t.y, t.x, Some(t.orientation));
            assert(r is Ok);
        }
        Ok(())
    }

    /// Posts what the galaxies of a list ask. The first galaxy whose centre
    /// is a corner of four cells, or off the board, is refused, and the
    /// session stays as it was.
    pub fn add_galaxies(&mut self, galaxies: &[GalaxyTile]) -> (r: Result<(), SolveError>)
        requires
            old(self).wf(),
        ensures
            final(self).wf(),
            match old(self)@.add_galaxies(galaxies@) {
                Ok(s) => r == Ok::<(), SolveError>(()) && final(self)@ == s,
                Err(e) => r == Err::<(), SolveError>(e) && final(self)@ == old(self)@,
            },
    {
        let height = self.height;
        let width = self.width;
        let ghost start = self@;
        let n = galaxies.len();
        for i in 0..n
            invariant
                *self == *old(self),
                self.wf(),
                start == self@,
                n == galaxies@.len(),
                height == self.height,
                width == self.width,
                start.add_galaxies_upto(galaxies@, i as int) is Ok,
        {
            let t = &galaxies[i];
            proof {
                lemma_galaxies_keep_board(start, galaxies@, i as int);
            }
            if t.x % 2 == 1 && t.y % 2 == 1 {
                proof {
                    lemma_galaxies_refused(start, galaxies@, i + 1, n as int);
                }
                return Err(SolveError::GalaxyOnCorner);
            }
            if !(t.y / 2 < height && t.x / 2 < width) {
                proof {
                    lemma_galaxies_refused(start, galaxies@, i + 1, n as int);
                }
                return Err(SolveError::LotusOutOfBounds);
            }
        }
        for i in 0..n
            invariant
                self.wf(),
                n == galaxies@.len(),
                start == old(self)@,
                start.add_galaxies_upto(galaxies@, n as int) is Ok,
                start.add_galaxies_upto(galaxies@, i as int) == Ok::<Session, SolveError>(self@),
        {
            let t = &galaxies[i];
            proof {
                if start.add_galaxies_upto(galaxies@, i + 1) is Err {
                    lemma_galaxies_refused(start, galaxies@, i + 1, n as int);
                }
            }
            let r = self.add_lotus_or_galaxy(t.y / 2, t.x / 2, t.y, t.x, None);
            assert(r is Ok);
        }
        Ok(())
    }

    /// Posts that a pattern does not lie anywhere on the board.
    fn post_pattern(&mut self, pat: &Vec<Vec<Color>>)
        requires
            old(self).wf(),
            is_pattern(grid_of(pat@)),
        ensures
            final(self).wf(),
            forall|b: Session, ps: Seq<Posting>| #[trigger]
                old(self).extends(b, ps) ==> final(self).extends(
                    b,
                    ps + pattern_postings(grid_of(pat@), old(self)@.height, old(self)@.width),
                ),
    {
        let height = self.height;
        let width = self.width;
        let h = pat.len();
        let w = pat[0].len();
        let ghost g = grid_of(pat@);
        let ghost start = self@;
        proof {
            self.lemma_extends_self();
        }
        if h <= height && w <= width {
            let ghost f = placement_fn(g);
            let ghost pw = width - w + 1;
            proof {
                lemma_board_bounds(height as int, width as int, 0, 0);
            }
            for y in 0..(height - h + 1)
                invariant
                    self.wf(),
                    height == self.height,
                    width == self.width,
                    h == pat@.len(),
                    w == pat@[0]@.len(),
                    h <= height <= i32::MAX,
                    w <= width <= i32::MAX,
                    g == grid_of(pat@),
                    is_pattern(g),
                    f == placement_fn(g),
                    pw == width - w + 1,
                    self.extends(start, rows_upto(y as int, pw, f)),
            {
                proof {
                    lemma_row_next(y as int, pw, f);
                }
                for x in 0..(width - w + 1)
                    invariant
                        self.wf(),
                        height == self.height,
                        width == self.width,
                        h == pat@.len(),
                        w == pat@[0]@.len(),
                        h <= height <= i32::MAX,
                        w <= width <= i32::MAX,
                        y + h <= height,
                        g == grid_of(pat@),
                        is_pattern(g),
                        f == placement_fn(g),
                        pw == width - w + 1,
                        self.extends(
                            start,
                            rows_upto(y as int, pw, f) + row_upto(y as int, x as int, f),
                        ),
                {
                    let ghost sofar = rows_upto(y as int, pw, f) + row_upto(y as int, x as int, f);
                    let cond = literal_vars(pat, y, x);
                    self.post(BoolExpr::not(BoolExpr::and(cond)));
                    proof {
                        assert(sofar.push(f(y as int, x as int)[0]) =~= sofar + f(
                            y as int,
                            x as int,
                        ));
                        lemma_cell_next(y as int, x as int, pw, f);
                    }
                }
            }
            proof {
                assert forall|b: Session, ps: Seq<Posting>| #[trigger]
                    old(self).extends(b, ps) implies self.extends(
                    b,
                    ps + pattern_postings(g, height as int, width as int),
                ) by {
                    assert(b.program + ps + pattern_postings(g, height as int, width as int)
                        =~= b.program + (ps + pattern_postings(g, height as int, width as int)));
                }
            }
        } else {
            proof {
                assert forall|b: Session, ps: Seq<Posting>| #[trigger]
                    old(self).extends(b, ps) implies self.extends(
                    b,
                    ps + pattern_postings(g, height as int, width as int),
                ) by {
                    assert(ps + pattern_postings(g, height as int, width as int) =~= ps);
                }
            }
        }
    }

    /// Posts that none of the images of the coloured part of a pattern lies
    /// anywhere on the board. A pattern without a coloured tile is refused,
    /// and the session stays as it was.
    pub fn add_forbidden_pattern(&mut self, pattern: &[Vec<Tile>]) -> (r: Result<(), SolveError>)
        requires
            old(self).wf(),
            pattern@.len() > 0,
            is_grid(grid_of(pattern@), pattern@.len() as int, pattern@[0]@.len() as int),
        ensures
            final(self).wf(),
            match old(self)@.add_forbidden_pattern(grid_of(pattern@)) {
                Ok(s) => r == Ok::<(), SolveError>(()) && final(self)@ == s,
                Err(e) => r == Err::<(), SolveError>(e) && final(self)@ == old(self)@,
            },
    {
        let cropped = match crop_pattern(pattern) {
            Some(c) => c,
            None => {
                return Err(SolveError::EmptyForbiddenPattern);
            },
        };
        let patterns = enumerate_patterns(cropped.as_slice());
        let ghost list = grids_of(patterns@);
        let ghost f = patterns_fn(list, self@.height, self@.width);
        proof {
            self.lemma_extends_self();
        }
        for i in 0..patterns.len()
            invariant
                self.wf(),
                self@.height == old(self)@.height,
                self@.width == old(self)@.width,
                list == grids_of(patterns@),
                forall|k: int| 0 <= k < patterns@.len() ==> is_pattern(#[trigger] list[k]),
                f == patterns_fn(list, old(self)@.height, old(self)@.width),
                self.extends(old(self)@, concat_upto(i as int, f)),
        {
            assert(is_pattern(list[i as int]));
            self.post_pattern(&patterns[i]);
        }
        Ok(())
    }

    /// Posts what the sizes of regions ask: the area clues, the size of the
    /// white regions and the size of the black regions, as far as they are
    /// given. Two area clues on one cell are refused, and the session stays
    /// as it was.
    pub fn add_area_numbers(
        &mut self,
        area_numbers: Option<&[AreaNumberTile]>,
        size_light: Option<i32>,
        size_dark: Option<i32>,
    ) -> (r: Result<(), SolveError>)
        requires
            old(self).wf(),
            area_numbers is Some ==> area_taken(
                area_numbers->Some_0@,
                old(self)@.height,
                old(self)@.width,
                old(self)@.off_by,
            ),
        ensures
            final(self).wf(),
            match old(self)@.add_area_numbers(
                area_of(area_numbers),
                off_by_of(size_light),
                off_by_of(size_dark),
            ) {
                Ok(s) => r == Ok::<(), SolveError>(()) && final(self)@ == s,
                Err(e) => r == Err::<(), SolveError>(e) && final(self)@ == old(self)@,
            },
    {
        if area_numbers.is_none() && size_light.is_none() && size_dark.is_none() {
            return Ok(());
        }
        let height = self.height;
        let width = self.width;
        let off_by = self.off_by;
        let g = self.int_grids;
        let ghost area = area_of(area_numbers);
        let ghost light = off_by_of(size_light);
        let ghost dark = off_by_of(size_dark);
        let clues = match clue_grid(area_numbers, height, width) {
            Some(c) => c,
            None => {
                return Err(SolveError::DuplicateAreaNumber);
            },
        };
        let ghost f = area_cell_fn(
            g as int,
            height * width,
            area,
            light,
            dark,
            off_by_of(off_by),
        );
        let ghost sf = area_size_fn(g as int, area, light, dark, off_by_of(off_by));
        let mut sizes: Vec<Option<IntExpr>> = Vec::new();
        proof {
            self.lemma_extends_self();
            assert(opt_terms_of(sizes@) =~= rows_upto(0, width as int, sf));
        }
        for y in 0..height
            invariant
                self.wf(),
                height == self.height,
                width == self.width,
                off_by == self.off_by,
                g == self.int_grids,
                height * width <= i32::MAX,
                area == area_of(area_numbers),
                light == off_by_of(size_light),
                dark == off_by_of(size_dark),
                area is Some ==> area_fits(
                    area->Some_0,
                    height as int,
                    width as int,
                    off_by_of(off_by),
                ),
                is_grid(grid_of(clues@), height as int, width as int),
                forall|i: int, j: int|
                    0 <= i < height && 0 <= j < width ==> off_by_of(
                        #[trigger] grid_of(clues@)[i][j],
                    ) == area_clue(area, i, j),
                f == area_cell_fn(g as int, height * width, area, light, dark, off_by_of(off_by)),
                sf == area_size_fn(g as int, area, light, dark, off_by_of(off_by)),
                self.extends(old(self)@, rows_upto(y as int, width as int, f)),
                opt_terms_of(sizes@) == rows_upto(y as int, width as int, sf),
        {
            proof {
                lemma_row_next(y as int, width as int, f);
                lemma_row_next(y as int, width as int, sf);
            }
            for x in 0..width
                invariant
                    self.wf(),
                    height == self.height,
                    width == self.width,
                    off_by == self.off_by,
                    g == self.int_grids,
                    height * width <= i32::MAX,
                    y < height,
                    area == area_of(area_numbers),
                    light == off_by_of(size_light),
                    dark == off_by_of(size_dark),
                    area is Some ==> area_fits(
                        area->Some_0,
                        height as int,
                        width as int,
                        off_by_of(off_by),
                    ),
                    is_grid(grid_of(clues@), height as int, width as int),
                    forall|i: int, j: int|
                        0 <= i < height && 0 <= j < width ==> off_by_of(
                            #[trigger] grid_of(clues@)[i][j],
                        ) == area_clue(area, i, j),
                    f == area_cell_fn(
                        g as int,
                        height * width,
                        area,
                        light,
                        dark,
                        off_by_of(off_by),
                    ),
                    sf == area_size_fn(g as int, area, light, dark, off_by_of(off_by)),
                    self.extends(
                        old(self)@,
                        rows_upto(y as int, width as int, f) + row_upto(y as int, x as int, f),
                    ),
                    opt_terms_of(sizes@) == rows_upto(y as int, width as int, sf) + row_upto(
                        y as int,
                        x as int,
                        sf,
                    ),
            {
                let ghost sofar = rows_upto(y as int, width as int, f) + row_upto(
                    y as int,
                    x as int,
                    f,
                );
                let ghost sizes_sofar = opt_terms_of(sizes@);
                assert(grid_of(clues@)[y as int].len() == width);
                let clue = clues[y][x];
                assert(off_by_of(clue) == area_clue(area, y as int, x as int)) by {
                    assert(grid_of(clues@)[y as int][x as int] == clue);
                }
                proof {
                    if clue is Some {
                        lemma_clue_fits(area->Some_0, y as int, x as int, height as int, width as int, off_by_of(off_by));
                    }
                }
                let size = self.area_cell(g, y, x, size_light, size_dark, clue);
                push_size(&mut sizes, size);
                proof {
                    assert(sizes_sofar.push(sf(y as int, x as int)[0]) =~= sizes_sofar + sf(
                        y as int,
                        x as int,
                    ));
                    lemma_cell_next(y as int, x as int, width as int, f);
                    lemma_cell_next(y as int, x as int, width as int, sf);
                    assert(sofar + f(y as int, x as int) == rows_upto(y as int, width as int, f)
                        + row_upto(y as int, x + 1, f));
                }
            }
        }
        let edges = lattice_edges(height, width);
        let cuts = lattice_cuts(height, width);
        let ghost body = rows_upto(height as int, width as int, f);
        let c = Command::GraphDivision { sizes, edges, cuts };
        proof {
            assert(body.push(c@) =~= area_postings(
                g as int,
                height as int,
                width as int,
                area,
                light,
                dark,
                off_by_of(off_by),
            ));
        }
        self.emit(c);
        let len = self.commands.len();
        assert(postings_of(self.commands@).len() == len);
        assert(len >= 1);
        assert(g < len) by {
            assert(postings_of(old(self).commands@).len() == old(self).commands@.len());
            assert(self@.program.len() > old(self)@.program.len());
        }
        self.int_grids = g + 1;
        Ok(())
    }

    /// Declares and constrains the size variable of a cell, if it has one,
    /// and gives the size of the region of the cell.
    fn area_cell(
        &mut self,
        g: usize,
        y: usize,
        x: usize,
        size_light: Option<i32>,
        size_dark: Option<i32>,
        clue: Option<i32>,
    ) -> (r: Option<IntExpr>)
        requires
            old(self).wf(),
            y < old(self)@.height,
            x < old(self)@.width,
            clue is Some ==> clue_fits(clue->Some_0 as int, old(self)@.off_by),
        ensures
            final(self).wf(),
            final(self)@.int_grids == old(self)@.int_grids,
            final(self)@.height == old(self)@.height,
            final(self)@.width == old(self)@.width,
            final(self)@.off_by == old(self)@.off_by,
            opt_term(r) == area_cell_size(
                g as int,
                y as int,
                x as int,
                off_by_of(size_light),
                off_by_of(size_dark),
                off_by_of(clue),
                old(self)@.off_by,
            ),
            forall|b: Session, ps: Seq<Posting>| #[trigger]
                old(self).extends(b, ps) ==> final(self).extends(
                    b,
                    ps + area_cell_postings(
                        g as int,
                        y as int,
                        x as int,
                        old(self)@.height * old(self)@.width,
                        off_by_of(size_light),
                        off_by_of(size_dark),
                        off_by_of(clue),
                        old(self)@.off_by,
                    ),
                ),
    {
        let height = self.height;
        let width = self.width;
        let off_by = self.off_by;
        let ghost target = area_cell_postings(
            g as int,
            y as int,
            x as int,
            height * width,
            off_by_of(size_light),
            off_by_of(size_dark),
            off_by_of(clue),
            off_by_of(off_by),
        );
        let ghost mut done = Seq::<Posting>::empty();
        proof {
            self.lemma_extends_self();
            lemma_board_bounds(height as int, width as int, y as int, x as int);
        }
        let ghost start = self@;
        let r = if size_light.is_some() || size_dark.is_some() {
            let cells = (height * width) as i32;
            self.emit(Command::NewIntVar { var: IntVar { grid: g, y, x }, lo: 1, hi: cells });
            if let Some(n) = size_light {
                self.post(
                    BoolExpr::imp(
                        Self::white(y, x),
                        BoolExpr::eq(IntExpr::cell(g, y, x), IntExpr::constant(n)),
                    ),
                );
            }
            if let Some(n) = size_dark {
                self.post(
                    BoolExpr::imp(
                        Self::black(y, x),
                        BoolExpr::eq(IntExpr::cell(g, y, x), IntExpr::constant(n)),
                    ),
                );
            }
            if let Some(n) = clue {
                self.post(clue_expr(IntExpr::cell(g, y, x), n, off_by));
            }
            proof {
                done = self@.program.subrange(start.program.len() as int, self@.program.len() as int);
                assert(done =~= target);
            }
            Some(IntExpr::cell(g, y, x))
        } else {
            match clue {
                Some(n) => match off_by {
                    Some(k) => {
                        if n - k > 0 {
                            let mut domain: Vec<i32> = Vec::new();
                            domain.push(n - k);
                            domain.push(n + k);
                            assert(ints_of(domain@) =~= seq![n - k, n + k]);
                            self.emit(
                                Command::NewIntVarFromDomain {
                                    var: IntVar { grid: g, y, x },
                                    domain,
                                },
                            );
                            proof {
                                done = self@.program.subrange(
                                    start.program.len() as int,
                                    self@.program.len() as int,
                                );
                                assert(done =~= target);
                            }
                            Some(IntExpr::cell(g, y, x))
                        } else {
                            proof {
                                assert(done =~= target);
                            }
                            Some(IntExpr::constant(n + k))
                        }
                    },
                    None => {
                        proof {
                            assert(done =~= target);
                        }
                        Some(IntExpr::constant(n))
                    },
                },
                None => {
                    proof {
                        assert(done =~= target);
                    }
                    None
                },
            }
        };
        proof {
            assert(self.extends(start, target)) by {
                assert(self@.program =~= start.program + target);
            }
            assert forall|b: Session, ps: Seq<Posting>| #[trigger]
                old(self).extends(b, ps) implies self.extends(b, ps + target) by {
                assert(b.program + ps + target =~= b.program + (ps + target));
            }
        }
        r
    }

    /// The cell `(y, x)` has no colour.
    fn blank(y: usize, x: usize) -> (r: BoolExpr)
        ensures
            r@ == blank(y as int, x as int),
    {
        BoolExpr::and2(BoolExpr::not(Self::black(y, x)), BoolExpr::not(Self::white(y, x)))
    }

    /// What a pair of neighbours asks of the groups.
    fn group_pair_expr(g: usize, p: (usize, usize), q: (usize, usize)) -> (r: BoolExpr)
        ensures
            Posting::Post(r@) == group_pair(
                g as int,
                (p.0 as int, p.1 as int),
                (q.0 as int, q.1 as int),
            ),
    {
        let guard = BoolExpr::or2(
            BoolExpr::ne(IntExpr::cell(g, p.0, p.1), IntExpr::constant(-1)),
            BoolExpr::ne(IntExpr::cell(g, q.0, q.1), IntExpr::constant(-1)),
        );
        let same = BoolExpr::iff(
            BoolExpr::eq(IntExpr::cell(g, p.0, p.1), IntExpr::cell(g, q.0, q.1)),
            BoolExpr::and2(
                BoolExpr::iff(Self::black(p.0, p.1), Self::black(q.0, q.1)),
                BoolExpr::iff(Self::white(p.0, p.1), Self::white(q.0, q.1)),
            ),
        );
        let mut cases: Vec<BoolExpr> = Vec::new();
        let a = Self::blank(p.0, p.1);
        let b = Self::blank(q.0, q.1);
        let ghost fa = a@;
        let ghost fb = b@;
        let ghost fs = same@;
        cases.push(a);
        cases.push(b);
        cases.push(same);
        proof {
            assert(formulas_of(cases@) =~= seq![fa, fb, fs]);
        }
        BoolExpr::imp(guard, BoolExpr::or(cases))
    }

    /// Posts what the letter tiles ask: each cell gets the number of a
    /// group, or -1; the tiles with one letter are in one group; each group
    /// is connected; and two neighbours of which one is in a group are in
    /// the same group if and only if they have the same colour. So a group
    /// is a whole region of one colour, the tiles with one letter lie in
    /// one region, and tiles with different letters in different regions.
    pub fn add_letters(&mut self, letters: &[LetterTile])
        requires
            old(self).wf(),
            letters_fit(letters@, old(self)@.height, old(self)@.width),
        ensures
            final(self).wf(),
            final(self)@ == old(self)@.add_letters(letters@),
    {
        let height = self.height;
        let width = self.width;
        let g = self.int_grids;
        let sorted = sort_letters(letters);
        let ghost keys = sorted_keys(letters@);
        let n = sorted.len();
        proof {
            lemma_sorted_keys_fit(letters@, height as int, width as int);
        }
        let mut groups: i32 = 0;
        for i in 0..n
            invariant
                n == sorted@.len(),
                n <= i32::MAX,
                keys == keys_of(sorted@),
                0 <= groups <= i,
                groups == group_count(keys.take(i as int)),
                i > 0 ==> groups == group_of(keys, i - 1) + 1,
        {
            proof {
                lemma_group_of_take(keys, i + 1, i as int);
                if i > 0 {
                    lemma_group_of_take(keys, i as int, i - 1);
                }
            }
            if i == 0 || !same_letter(&sorted[i], &sorted[i - 1]) {
                groups = groups + 1;
            }
        }
        proof {
            assert(keys.take(n as int) =~= keys);
        }
        let ghost start = self@;
        self.emit(Command::NewIntGrid { grid: g, lo: -1, hi: groups - 1 });
        let ghost head = seq![
            Posting::NewIntGrid { grid: g as int, lo: -1, hi: group_count(keys) - 1 },
        ];
        let ghost bf = blank_fn(g as int);
        proof {
            assert(self@.program =~= start.program + (head + rows_upto(0, width as int, bf)));
        }
        for y in 0..height
            invariant
                self.wf(),
                height == self.height,
                width == self.width,
                g == self.int_grids,
                bf == blank_fn(g as int),
                self.extends(start, head + rows_upto(y as int, width as int, bf)),
        {
            proof {
                lemma_row_step(head, y as int, width as int, bf);
            }
            for x in 0..width
                invariant
                    self.wf(),
                    height == self.height,
                    width == self.width,
                    g == self.int_grids,
                    y < height,
                    bf == blank_fn(g as int),
                    self.extends(
                        start,
                        head + rows_upto(y as int, width as int, bf) + row_upto(
                            y as int,
                            x as int,
                            bf,
                        ),
                    ),
            {
                let ghost sofar = head + rows_upto(y as int, width as int, bf) + row_upto(
                    y as int,
                    x as int,
                    bf,
                );
                self.post(
                    BoolExpr::imp(
                        Self::blank(y, x),
                        BoolExpr::eq(IntExpr::cell(g, y, x), IntExpr::constant(-1)),
                    ),
                );
                proof {
                    assert(sofar.push(bf(y as int, x as int)[0]) =~= sofar + bf(
                        y as int,
                        x as int,
                    ));
                    lemma_cell_step(head, y as int, x as int, width as int, bf);
                }
            }
        }
        let ghost mid = head + rows_upto(height as int, width as int, bf);
        let ghost pf = group_pairs_fn(g as int);
        proof {
            assert(mid + rows_upto(0, width as int, pf) =~= mid);
        }
        for y in 0..height
            invariant
                self.wf(),
                height == self.height,
                width == self.width,
                g == self.int_grids,
                pf == group_pairs_fn(g as int),
                self.extends(start, mid + rows_upto(y as int, width as int, pf)),
        {
            proof {
                lemma_row_step(mid, y as int, width as int, pf);
            }
            for x in 0..width
                invariant
                    self.wf(),
                    height == self.height,
                    width == self.width,
                    g == self.int_grids,
                    y < height,
                    pf == group_pairs_fn(g as int),
                    self.extends(
                        start,
                        mid + rows_upto(y as int, width as int, pf) + row_upto(
                            y as int,
                            x as int,
                            pf,
                        ),
                    ),
            {
                let ghost sofar = mid + rows_upto(y as int, width as int, pf) + row_upto(
                    y as int,
                    x as int,
                    pf,
                );
                let ghost mut done = sofar;
                if y > 0 {
                    self.post(Self::group_pair_expr(g, (y, x), (y - 1, x)));
                    proof {
                        done = done.push(group_pair(g as int, (y as int, x as int), (y - 1, x as int)));
                    }
                }
                if x > 0 {
                    self.post(Self::group_pair_expr(g, (y, x), (y, x - 1)));
                    proof {
                        done = done.push(group_pair(g as int, (y as int, x as int), (y as int, x - 1)));
                    }
                }
                proof {
                    assert(done =~= sofar + pf(y as int, x as int));
                    lemma_cell_step(mid, y as int, x as int, width as int, pf);
                }
            }
        }
        let ghost late = mid + rows_upto(height as int, width as int, pf);
        let ghost mf = member_fn(g as int, keys);
        proof {
            assert(late + concat_upto(0, mf) =~= late);
        }
        let mut group: i32 = 0;
        for i in 0..n
            invariant
                self.wf(),
                n == sorted@.len(),
                n <= i32::MAX,
                g == self.int_grids,
                keys == keys_of(sorted@),
                mf == member_fn(g as int, keys),
                0 <= group <= i,
                i < n ==> group == group_of(keys, i as int),
                forall|k: int| 0 <= k < n ==> 0 <= (#[trigger] keys[k]).1 && 0 <= keys[k].2,
                self.extends(start, late + concat_upto(i as int, mf)),
        {
            let ghost sofar = late + concat_upto(i as int, mf);
            let ghost mut done = sofar;
            let t = &sorted[i];
            assert(keys[i as int] == key_of(*t));
            self.post(BoolExpr::eq(IntExpr::cell(g, t.y, t.x), IntExpr::constant(group)));
            proof {
                done = done.push(mf(i as int)[0]);
            }
            if i + 1 == n || !same_letter(&sorted[i + 1], &sorted[i]) {
                self.emit(Command::Connected(GridExpr::IntEquals { grid: g, value: group }));
                proof {
                    done = done.push(mf(i as int)[1]);
                }
                if i + 1 < n {
                    group = group + 1;
                }
            }
            proof {
                assert(done =~= sofar + mf(i as int));
                lemma_concat_step(late, i as int, mf);
            }
        }
        proof {
            assert(start.program + (late + concat_upto(n as int, mf)) =~= start.program
                + letters_postings(g as int, height as int, width as int, keys));
        }
        let len = self.commands.len();
        assert(postings_of(self.commands@).len() == len);
        assert(g < len) by {
            assert(postings_of(old(self).commands@).len() == old(self).commands@.len());
            assert(self@.program.len() > old(self)@.program.len());
        }
        self.int_grids = g + 1;
    }
}

/// The group of a key does not depend on the keys behind it.
pub proof fn lemma_group_of_take(keys: Seq<LetterKey>, n: int, i: int)
    requires
        0 <= i < n <= keys.len(),
    ensures
        group_of(keys.take(n), i) == group_of(keys, i),
    decreases i,
{
    if i > 0 {
        lemma_group_of_take(keys, n, i - 1);
    }
}

/// The sorted keys of letter tiles on the board lie on the board.
pub proof fn lemma_sorted_keys_fit(tiles: Seq<LetterTile>, height: int, width: int)
    requires
        letters_fit(tiles, height, width),
    ensures
        sorted_keys(tiles).len() == tiles.len(),
        forall|k: int|
            0 <= k < tiles.len() ==> 0 <= (#[trigger] sorted_keys(tiles)[k]).1 < height && 0
                <= sorted_keys(tiles)[k].2 < width,
{
    broadcast use vstd::seq_lib::group_to_multiset_ensures;

    crate::letters::lemma_key_order_total();
    let keys = keys_of(tiles);
    let sorted = sorted_keys(tiles);
    keys.lemma_sort_by_ensures(crate::letters::key_order());
    assert(sorted.len() == keys.len()) by {
        assert(sorted.to_multiset().len() == keys.to_multiset().len());
    }
    assert forall|k: int| 0 <= k < tiles.len() implies 0 <= (#[trigger] sorted[k]).1 < height && 0
        <= sorted[k].2 < width by {
        assert(sorted.contains(sorted[k]));
        assert(keys.contains(sorted[k]));
        let j = choose|j: int| 0 <= j < keys.len() && keys[j] == sorted[k];
        assert(keys[j] == key_of(tiles[j]));
    }
}

/// The list of area clues as a sequence, if there is one.
pub open spec fn area_of(a: Option<&[AreaNumberTile]>) -> Option<Seq<AreaNumberTile>> {
    match a {
        Some(tiles) => Some(tiles@),
        None => None,
    }
}

/// The term of an optional integer expression.
pub open spec fn opt_term(e: Option<IntExpr>) -> Option<Term> {
    match e {
        Some(e) => Some(e@),
        None => None,
    }
}

/// Appends an optional size to a list.
fn push_size(sizes: &mut Vec<Option<IntExpr>>, size: Option<IntExpr>)
    ensures
        opt_terms_of(final(sizes)@) == opt_terms_of(old(sizes)@).push(opt_term(size)),
{
    sizes.push(size);
    proof {
        assert(opt_terms_of(sizes@) =~= opt_terms_of(old(sizes)@).push(opt_term(size)));
    }
}

/// An area clue on the board can be held.
pub proof fn lemma_clue_fits(
    tiles: Seq<AreaNumberTile>,
    y: int,
    x: int,
    height: int,
    width: int,
    off_by: Option<int>,
)
    requires
        area_fits(tiles, height, width, off_by),
        clue_at(tiles, y, x) is Some,
    ensures
        clue_fits(clue_at(tiles, y, x)->Some_0, off_by),
{
    let i = choose|i: int| 0 <= i < tiles.len() && (#[trigger] tiles[i]).y == y && tiles[i].x == x;
    assert(clue_fits(tiles[i].number as int, off_by));
}

/// A grid that holds, for each cell of the board, the number of the area
/// clue on it; nothing if two clues lie on one cell.
fn clue_grid(area: Option<&[AreaNumberTile]>, height: usize, width: usize) -> (r: Option<
    Vec<Vec<Option<i32>>>,
>)
    requires
        area is Some ==> area_reach(area->Some_0@, height as int, width as int),
    ensures
        r is None <==> area is Some && has_duplicate(area->Some_0@),
        r is Some ==> is_grid(grid_of(r->Some_0@), height as int, width as int),
        r is Some ==> forall|y: int, x: int|
            0 <= y < height && 0 <= x < width ==> off_by_of(
                #[trigger] grid_of(r->Some_0@)[y][x],
            ) == area_clue(area_of(area), y, x),
{
    let mut grid: Vec<Vec<Option<i32>>> = Vec::new();
    for y in 0..height
        invariant
            grid@.len() == y,
            forall|i: int| 0 <= i < y ==> (#[trigger] grid@[i])@.len() == width,
            forall|i: int, j: int|
                0 <= i < y && 0 <= j < width ==> (#[trigger] grid@[i]@[j]) is None,
    {
        let mut row: Vec<Option<i32>> = Vec::new();
        for x in 0..width
            invariant
                row@.len() == x,
                forall|j: int| 0 <= j < x ==> (#[trigger] row@[j]) is None,
        {
            row.push(None);
        }
        grid.push(row);
    }
    let tiles = match area {
        Some(t) => t,
        None => {
            return Some(grid);
        },
    };
    for k in 0..tiles.len()
        invariant
            area == Some(tiles),
            grid@.len() == height,
            forall|i: int| 0 <= i < height ==> (#[trigger] grid@[i])@.len() == width,
            area_reach(tiles@, height as int, width as int),
            forall|i: int| 0 <= i < k ==> (#[trigger] tiles@[i]).y < height && tiles@[i].x < width,
            !has_duplicate(tiles@.take(k as int)),
            forall|i: int|
                0 <= i < k ==> grid@[tiles@[i].y as int]@[tiles@[i].x as int] == Some(
                    (#[trigger] tiles@[i]).number,
                ),
            forall|y: int, x: int|
                0 <= y < height && 0 <= x < width && (#[trigger] grid@[y]@[x]) is Some ==> exists|
                    i: int,
                | 0 <= i < k && (#[trigger] tiles@[i]).y == y && tiles@[i].x == x,
    {
        let ty = tiles[k].y;
        let tx = tiles[k].x;
        let number = tiles[k].number;
        if grid[ty][tx].is_some() {
            proof {
                let i = choose|i: int| 0 <= i < k && (#[trigger] tiles@[i]).y == ty && tiles@[i].x == tx;
                assert(tiles@[i].y == tiles@[k as int].y && tiles@[i].x == tiles@[k as int].x);
                assert(has_duplicate(tiles@));
            }
            return None;
        }
        let ghost before = grid@;
        let mut row: Vec<Option<i32>> = Vec::new();
        std::mem::swap(&mut row, &mut grid[ty]);
        row.set(tx, Some(number));
        std::mem::swap(&mut row, &mut grid[ty]);
        proof {
            assert forall|i: int| 0 <= i <= k implies grid@[tiles@[i].y as int]@[tiles@[i].x as int]
                == Some((#[trigger] tiles@[i]).number) by {
                if i < k {
                    if tiles@[i].y == ty && tiles@[i].x == tx {
                        assert(before[ty as int]@[tx as int] is Some);
                    }
                }
            }
            assert(!has_duplicate(tiles@.take(k + 1))) by {
                if has_duplicate(tiles@.take(k + 1)) {
                    let t = tiles@.take(k + 1);
                    let (i, j) = choose|i: int, j: int|
                        0 <= i < j < t.len() && (#[trigger] t[i]).y == (#[trigger] t[j]).y && t[i].x
                            == t[j].x;
                    if j < k {
                        let t0 = tiles@.take(k as int);
                        assert(t0[i].y == t0[j].y && t0[i].x == t0[j].x);
                    } else {
                        assert(before[ty as int]@[tx as int] == Some(tiles@[i].number));
                    }
                }
            }
            assert forall|y: int, x: int|
                0 <= y < height && 0 <= x < width && (#[trigger] grid@[y]@[x]) is Some implies exists|
                i: int,
            | 0 <= i < k + 1 && (#[trigger] tiles@[i]).y == y && tiles@[i].x == x by {
                if y == ty && x == tx {
                    assert(tiles@[k as int].y == y);
                } else {
                    assert(before[y]@[x] is Some);
                    let i = choose|i: int| 0 <= i < k && (#[trigger] tiles@[i]).y == y && tiles@[i].x == x;
                    assert(tiles@[i].y == y);
                }
            }
        }
    }
    proof {
        assert(tiles@.take(tiles@.len() as int) =~= tiles@);
        assert forall|y: int, x: int| 0 <= y < height && 0 <= x < width implies off_by_of(
            #[trigger] grid_of(grid@)[y][x],
        ) == area_clue(area_of(area), y, x) by {
            let v = grid@[y]@[x];
            if exists|i: int| 0 <= i < tiles@.len() && (#[trigger] tiles@[i]).y == y && tiles@[i].x == x {
                let i = choose|i: int| 0 <= i < tiles@.len() && (#[trigger] tiles@[i]).y == y && tiles@[i].x == x;
                assert(grid@[tiles@[i].y as int]@[tiles@[i].x as int] == Some(tiles@[i].number));
            } else {
                if v is Some {
                    let i = choose|i: int| 0 <= i < tiles@.len() && (#[trigger] tiles@[i]).y == y && tiles@[i].x == x;
                    assert(false);
                }
            }
        }
    }
    Some(grid)
}

/// The edges between neighbours on the board, as pairs of vertices.
fn lattice_edges(height: usize, width: usize) -> (r: Vec<(usize, usize)>)
    requires
        height * width <= i32::MAX,
    ensures
        pairs_of(r@) == over_cells(height as int, width as int, edge_fn(width as int)),
{
    let ghost f = edge_fn(width as int);
    let mut r: Vec<(usize, usize)> = Vec::new();
    assert(pairs_of(r@) =~= rows_upto(0, width as int, f));
    for y in 0..height
        invariant
            height * width <= i32::MAX,
            f == edge_fn(width as int),
            pairs_of(r@) == rows_upto(y as int, width as int, f),
    {
        proof {
            lemma_row_next(y as int, width as int, f);
        }
        for x in 0..width
            invariant
                height * width <= i32::MAX,
                y < height,
                f == edge_fn(width as int),
                pairs_of(r@) == rows_upto(y as int, width as int, f) + row_upto(
                    y as int,
                    x as int,
                    f,
                ),
        {
            let ghost sofar = pairs_of(r@);
            proof {
                lemma_board_bounds(height as int, width as int, y as int, x as int);
                if y > 0 {
                    lemma_board_bounds(height as int, width as int, y - 1, x as int);
                }
            }
            let here = y * width + x;
            if y > 0 {
                r.push((here, (y - 1) * width + x));
            }
            if x > 0 {
                r.push((here, here - 1));
            }
            proof {
                assert(pairs_of(r@) =~= sofar + f(y as int, x as int));
                lemma_cell_next(y as int, x as int, width as int, f);
            }
        }
    }
    r
}

/// For each edge between neighbours, whether its two cells are apart.
fn lattice_cuts(height: usize, width: usize) -> (r: Vec<BoolExpr>)
    ensures
        formulas_of(r@) == over_cells(height as int, width as int, cut_fn()),
{
    let ghost f = cut_fn();
    let mut r: Vec<BoolExpr> = Vec::new();
    assert(formulas_of(r@) =~= rows_upto(0, width as int, f));
    for y in 0..height
        invariant
            f == cut_fn(),
            formulas_of(r@) == rows_upto(y as int, width as int, f),
    {
        proof {
            lemma_row_next(y as int, width as int, f);
        }
        for x in 0..width
            invariant
                y < height,
                f == cut_fn(),
                formulas_of(r@) == rows_upto(y as int, width as int, f) + row_upto(
                    y as int,
                    x as int,
                    f,
                ),
        {
            let ghost sofar = formulas_of(r@);
            if y > 0 {
                push_expr(&mut r, apart_expr((y, x), (y - 1, x)));
            }
            if x > 0 {
                push_expr(&mut r, apart_expr((y, x), (y, x - 1)));
            }
            proof {
                assert(formulas_of(r@) =~= sofar + f(y as int, x as int));
                lemma_cell_next(y as int, x as int, width as int, f);
            }
        }
    }
    r
}

/// Whether two cells are apart.
fn apart_expr(p: (usize, usize), q: (usize, usize)) -> (r: BoolExpr)
    ensures
        r@ == apart((p.0 as int, p.1 as int), (q.0 as int, q.1 as int)),
{
    BoolExpr::not(
        BoolExpr::or2(
            BoolExpr::and2(LogicPadSolver::white(p.0, p.1), LogicPadSolver::white(q.0, q.1)),
            BoolExpr::and2(LogicPadSolver::black(p.0, p.1), LogicPadSolver::black(q.0, q.1)),
        ),
    )
}

/// The variables that say that a pattern lies with its upper left corner at
/// `(y, x)`.
fn literal_vars(pat: &Vec<Vec<Color>>, y: usize, x: usize) -> (r: Vec<BoolExpr>)
    requires
        is_pattern(grid_of(pat@)),
        y + pat@.len() <= i32::MAX,
        x + pat@[0]@.len() <= i32::MAX,
    ensures
        formulas_of(r@) == literals(grid_of(pat@), y as int, x as int),
{
    let h = pat.len();
    let w = pat[0].len();
    let ghost g = grid_of(pat@);
    let ghost f = literal_fn(g, y as int, x as int);
    let mut r: Vec<BoolExpr> = Vec::new();
    assert(formulas_of(r@) =~= rows_upto(0, w as int, f));
    for dy in 0..h
        invariant
            h == pat@.len(),
            w == pat@[0]@.len(),
            y + h <= i32::MAX,
            x + w <= i32::MAX,
            g == grid_of(pat@),
            is_pattern(g),
            f == literal_fn(g, y as int, x as int),
            formulas_of(r@) == rows_upto(dy as int, w as int, f),
    {
        proof {
            lemma_row_next(dy as int, w as int, f);
        }
        assert(g[dy as int].len() == w);
        for dx in 0..w
            invariant
                h == pat@.len(),
                w == pat@[0]@.len(),
                dy < h,
                y + h <= i32::MAX,
                x + w <= i32::MAX,
                g == grid_of(pat@),
                is_pattern(g),
                g[dy as int].len() == w,
                f == literal_fn(g, y as int, x as int),
                formulas_of(r@) == rows_upto(dy as int, w as int, f) + row_upto(
                    dy as int,
                    dx as int,
                    f,
                ),
        {
            let ghost sofar = formulas_of(r@);
            match pat[dy][dx] {
                Color::White => {
                    push_expr(&mut r, BoolExpr::var(WHITE_GRID, y + dy, x + dx));
                    assert(sofar.push(f(dy as int, dx as int)[0]) =~= sofar + f(
                        dy as int,
                        dx as int,
                    ));
                },
                Color::Black => {
                    push_expr(&mut r, BoolExpr::var(BLACK_GRID, y + dy, x + dx));
                    assert(sofar.push(f(dy as int, dx as int)[0]) =~= sofar + f(
                        dy as int,
                        dx as int,
                    ));
                },
                Color::Undecided => {
                    assert(sofar =~= sofar + f(dy as int, dx as int));
                },
            }
            proof {
                lemma_cell_next(dy as int, dx as int, w as int, f);
            }
        }
    }
    r
}

/// The colours of a pattern within the smallest box that holds every
/// coloured tile; nothing if no tile is coloured.
pub fn crop_pattern(pattern: &[Vec<Tile>]) -> (r: Option<Vec<Vec<Color>>>)
    requires
        pattern@.len() > 0,
        is_grid(grid_of(pattern@), pattern@.len() as int, pattern@[0]@.len() as int),
    ensures
        r is Some <==> has_color(grid_of(pattern@)),
        r is Some ==> grid_of(r->Some_0@) == crop(grid_of(pattern@)) && is_pattern(
            grid_of(r->Some_0@),
        ),
{
    let p_height = pattern.len();
    let p_width = pattern[0].len();
    let ghost p = grid_of(pattern@);
    let mut ymin = p_height;
    let mut ymax: usize = 0;
    let mut xmin = p_width;
    let mut xmax: usize = 0;
    let ghost mut found = false;
    let ghost mut at_top: int = 0;
    let ghost mut at_bottom: int = 0;
    let ghost mut at_left: int = 0;
    let ghost mut at_right: int = 0;
    for y in 0..p_height
        invariant
            p == grid_of(pattern@),
            p_height == p.len(),
            p_width == p[0].len(),
            p_height > 0,
            is_grid(p, p_height as int, p_width as int),
            !found ==> ymin == p_height && ymax == 0 && xmin == p_width && xmax == 0,
            found ==> ymin <= ymax < y && xmin <= xmax < p_width,
            found ==> 0 <= at_top < p_width && colored(p, ymin as int, at_top),
            found ==> 0 <= at_bottom < p_width && colored(p, ymax as int, at_bottom),
            found ==> 0 <= at_left < p_height && colored(p, at_left, xmin as int),
            found ==> 0 <= at_right < p_height && colored(p, at_right, xmax as int),
            forall|i: int, j: int|
                0 <= i < y && 0 <= j < p_width && colored(p, i, j) ==> found && ymin <= i <= ymax
                    && xmin <= j <= xmax,
    {
        assert(p[y as int].len() == p_width);
        for x in 0..p_width
            invariant
                p == grid_of(pattern@),
                p_height == p.len(),
                p_width == p[0].len(),
                p_height > 0,
                y < p_height,
                p[y as int].len() == p_width,
                is_grid(p, p_height as int, p_width as int),
                !found ==> ymin == p_height && ymax == 0 && xmin == p_width && xmax == 0,
                found ==> ymin <= ymax <= y && xmin <= xmax < p_width,
                found ==> 0 <= at_top < p_width && colored(p, ymin as int, at_top),
                found ==> 0 <= at_bottom < p_width && colored(p, ymax as int, at_bottom),
                found ==> 0 <= at_left < p_height && colored(p, at_left, xmin as int),
                found ==> 0 <= at_right < p_height && colored(p, at_right, xmax as int),
                forall|i: int, j: int|
                    0 <= i < y && 0 <= j < p_width && colored(p, i, j) ==> found && ymin <= i
                        <= ymax && xmin <= j <= xmax,
                forall|j: int|
                    0 <= j < x && colored(p, y as int, j) ==> found && ymin <= y <= ymax && xmin
                        <= j <= xmax,
        {
            if pattern[y][x].color != Color::Undecided {
                if y < ymin {
                    ymin = y;
                    proof {
                        at_top = x as int;
                    }
                }
                if y >= ymax {
                    ymax = y;
                    proof {
                        at_bottom = x as int;
                    }
                }
                if x < xmin {
                    xmin = x;
                    proof {
                        at_left = y as int;
                    }
                }
                if x >= xmax {
                    xmax = x;
                    proof {
                        at_right = y as int;
                    }
                }
                proof {
                    found = true;
                }
            }
        }
    }
    if ymin > ymax {
        proof {
            assert(!found);
            assert(!has_color(p));
        }
        return None;
    }
    proof {
        assert(found);
        assert(colored(p, ymin as int, at_top));
        assert(has_color(p));
        assert(row_colored(p, ymin as int));
        assert(row_colored(p, ymax as int));
        assert(col_colored(p, xmin as int));
        assert(col_colored(p, xmax as int));
        assert(is_bounds(p, ymin as int, ymax as int, xmin as int, xmax as int));
        lemma_bounds_unique(p, (ymin as int, ymax as int, xmin as int, xmax as int), bounds(p));
    }
    let ghost target = cropped(p, ymin as int, ymax as int, xmin as int, xmax as int);
    let mut out: Vec<Vec<Color>> = Vec::new();
    for y in 0..(ymax - ymin + 1)
        invariant
            p == grid_of(pattern@),
            is_grid(p, p.len() as int, p[0].len() as int),
            p_height == p.len(),
            p_width == p[0].len(),
            ymin <= ymax < p.len(),
            xmin <= xmax < p[0].len(),
            target == cropped(p, ymin as int, ymax as int, xmin as int, xmax as int),
            out@.len() == y,
            forall|k: int| 0 <= k < y ==> (#[trigger] out@[k])@ == target[k],
    {
        let mut row: Vec<Color> = Vec::new();
        assert(p[y + ymin].len() == p[0].len());
        for x in 0..(xmax - xmin + 1)
            invariant
                p == grid_of(pattern@),
                p_height == p.len(),
                p_width == p[0].len(),
                ymin <= ymax < p.len(),
                xmin <= xmax < p[0].len(),
                y <= ymax - ymin,
                p[y + ymin].len() == p[0].len(),
                target == cropped(p, ymin as int, ymax as int, xmin as int, xmax as int),
                row@.len() == x,
                forall|k: int| 0 <= k < x ==> #[trigger] row@[k] == target[y as int][k],
        {
            row.push(pattern[y + ymin][x + xmin].color);
        }
        assert(row@ =~= target[y as int]);
        out.push(row);
    }
    proof {
        assert(grid_of(out@) =~= target);
        assert(is_pattern(target));
    }
    Some(out)
}

/// A pattern has one smallest box that holds its coloured tiles.
pub proof fn lemma_bounds_unique(
    p: Seq<Seq<Tile>>,
    a: (int, int, int, int),
    b: (int, int, int, int),
)
    requires
        is_bounds(p, a.0, a.1, a.2, a.3),
    ensures
        is_bounds(p, bounds(p).0, bounds(p).1, bounds(p).2, bounds(p).3),
        bounds(p) == a,
{
    let c = bounds(p);
    assert(is_bounds(p, c.0, c.1, c.2, c.3));
    let x0 = choose|x: int| 0 <= x < p[0].len() && colored(p, a.0, x);
    let x1 = choose|x: int| 0 <= x < p[0].len() && colored(p, a.1, x);
    let y0 = choose|y: int| 0 <= y < p.len() && colored(p, y, a.2);
    let y1 = choose|y: int| 0 <= y < p.len() && colored(p, y, a.3);
    let cx0 = choose|x: int| 0 <= x < p[0].len() && colored(p, c.0, x);
    let cx1 = choose|x: int| 0 <= x < p[0].len() && colored(p, c.1, x);
    let cy0 = choose|y: int| 0 <= y < p.len() && colored(p, y, c.2);
    let cy1 = choose|y: int| 0 <= y < p.len() && colored(p, y, c.3);
    assert(colored(p, a.0, x0) && colored(p, a.1, x1) && colored(p, y0, a.2) && colored(
        p,
        y1,
        a.3,
    ));
    assert(colored(p, c.0, cx0) && colored(p, c.1, cx1) && colored(p, cy0, c.2) && colored(
        p,
        cy1,
        c.3,
    ));
}

/// The lotuses that were accepted leave the board as it was.
pub proof fn lemma_lotuses_keep_board(s: Session, tiles: Seq<LotusTile>, n: int)
    requires
        s.add_lotuses_upto(tiles, n) is Ok,
    ensures
        s.add_lotuses_upto(tiles, n)->Ok_0.height == s.height,
        s.add_lotuses_upto(tiles, n)->Ok_0.width == s.width,
        s.add_lotuses_upto(tiles, n)->Ok_0.off_by == s.off_by,
    decreases n,
{
    if n > 0 {
        lemma_lotuses_keep_board(s, tiles, n - 1);
    }
}

/// Once a lotus is refused, the lotuses behind it change nothing.
pub proof fn lemma_lotuses_refused(s: Session, tiles: Seq<LotusTile>, k: int, n: int)
    requires
        k <= n,
        s.add_lotuses_upto(tiles, k) is Err,
    ensures
        s.add_lotuses_upto(tiles, n) == s.add_lotuses_upto(tiles, k),
    decreases n - k,
{
    if k < n {
        lemma_lotuses_refused(s, tiles, k, n - 1);
    }
}

/// The galaxies that were accepted leave the board as it was.
pub proof fn lemma_galaxies_keep_board(s: Session, tiles: Seq<GalaxyTile>, n: int)
    requires
        s.add_galaxies_upto(tiles, n) is Ok,
    ensures
        s.add_galaxies_upto(tiles, n)->Ok_0.height == s.height,
        s.add_galaxies_upto(tiles, n)->Ok_0.width == s.width,
        s.add_galaxies_upto(tiles, n)->Ok_0.off_by == s.off_by,
    decreases n,
{
    if n > 0 {
        lemma_galaxies_keep_board(s, tiles, n - 1);
    }
}

/// Once a galaxy is refused, the galaxies behind it change nothing.
pub proof fn lemma_galaxies_refused(s: Session, tiles: Seq<GalaxyTile>, k: int, n: int)
    requires
        k <= n,
        s.add_galaxies_upto(tiles, k) is Err,
    ensures
        s.add_galaxies_upto(tiles, n) == s.add_galaxies_upto(tiles, k),
    decreases n - k,
{
    if k < n {
        lemma_galaxies_refused(s, tiles, k, n - 1);
    }
}

} // verus!

//! The propagator for the shapes of blocks. It is told the cells of one
//! colour grid as a solver decides them, and it finds out when the blocks
//! that are closed break the rule that all blocks have the same shape, or
//! that they all have different shapes.
//!
//! A block is a set of active cells that hang together by their sides and
//! that no further active cell touches. It is closed when none of its
//! cells touches an undecided cell: its shape can then no longer change.

use crate::polyomino::{
    invariant_of, lemma_invariant_same_points, points_of, shape_equal, shape_fits,
    transform_invariant, Point,
};
use crate::puzzle::{grid_of, is_grid};
use crate::seqs::{concat_upto, lemma_concat_holds};
use std::collections::VecDeque;
use vstd::prelude::*;
use vstd::seq_lib::to_multiset_contains;
use vstd::set_lib::{lemma_int_range, lemma_len_subset, set_int_range};

pub use crate::expr::ConstraintType;

verus! {

/// What is known of a cell: it is outside the colour, it has the colour,
/// or it is not decided yet.
#[derive(Clone, Copy, Debug, PartialEq, Eq, Structural)]
pub enum ShapeCell {
    Inactive,
    Active,
    Undecided,
}

/// A cell of the board: its row and its column.
pub type Cell = (int, int);

/// A board of cells.
pub ghost struct Board {
    pub height: int,
    pub width: int,
    pub cells: Seq<Seq<ShapeCell>>,
}

/// Two cells share a side.
pub open spec fn adjacent(c: Cell, d: Cell) -> bool {
    (c.0 == d.0 && (c.1 == d.1 + 1 || c.1 + 1 == d.1)) || (c.1 == d.1 && (c.0 == d.0 + 1 || c.0
        + 1 == d.0))
}

/// The cell `c` comes before the cell `d` in row-major order.
pub open spec fn before(c: Cell, d: Cell) -> bool {
    c.0 < d.0 || (c.0 == d.0 && c.1 < d.1)
}

/// The neighbour of a cell in a direction: 0 is up, 1 is down, 2 is left,
/// 3 is right.
pub open spec fn neighbour(c: Cell, dir: int) -> Cell {
    if dir == 0 {
        (c.0 - 1, c.1)
    } else if dir == 1 {
        (c.0 + 1, c.1)
    } else if dir == 2 {
        (c.0, c.1 - 1)
    } else {
        (c.0, c.1 + 1)
    }
}

/// `cells` are listed in the order of a breadth-first search from the
/// first cell. `keys` says how each cell but the first was found: as the
/// neighbour of which listed cell, by its place in the list, and in which
/// direction. That cell comes before it; no cell that has its turn earlier
/// touches it, and the same cell touches it in no earlier direction; and
/// the cells are listed in the order in which they were found.
pub open spec fn searched(cells: Seq<Cell>, keys: Seq<(int, int)>) -> bool {
    &&& keys.len() == cells.len()
    &&& forall|k: int|
        1 <= k < cells.len() ==> 0 <= (#[trigger] keys[k]).0 < k && 0 <= keys[k].1 < 4 && cells[k]
            == neighbour(cells[keys[k].0], keys[k].1)
    &&& forall|k: int, j: int, d: int|
        1 <= k < cells.len() && 0 <= j && 0 <= d < 4 && before((j, d), #[trigger] keys[k])
            ==> #[trigger] neighbour(cells[j], d) != cells[k]
    &&& forall|k: int, m: int|
        1 <= k < m < cells.len() ==> before(#[trigger] keys[k], #[trigger] keys[m])
}

/// `cells` are listed in the order of a breadth-first search from the
/// first cell, in which the neighbours of a cell are looked at in the order
/// up, down, left, right.
pub open spec fn in_search_order(cells: Seq<Cell>) -> bool {
    exists|keys: Seq<(int, int)>| searched(cells, keys)
}

impl Board {
    /// The board has `height` rows of `width` cells.
    pub open spec fn wf(self) -> bool {
        0 <= self.height && 0 <= self.width && is_grid(self.cells, self.height, self.width)
    }

    /// The cell lies on the board.
    pub open spec fn inside(self, c: Cell) -> bool {
        0 <= c.0 < self.height && 0 <= c.1 < self.width
    }

    /// What is known of a cell.
    pub open spec fn at(self, c: Cell) -> ShapeCell {
        self.cells[c.0][c.1]
    }

    /// The cell lies on the board and is active.
    pub open spec fn active(self, c: Cell) -> bool {
        self.inside(c) && self.at(c) == ShapeCell::Active
    }

    /// The number of a cell: the cells are numbered row by row.
    pub open spec fn index(self, c: Cell) -> int {
        c.0 * self.width + c.1
    }

    /// The cells of `p` are active, and each shares a side with the next.
    pub open spec fn is_path(self, p: Seq<Cell>) -> bool {
        &&& p.len() > 0
        &&& forall|i: int| 0 <= i < p.len() ==> self.active(#[trigger] p[i])
        &&& forall|i: int| 0 <= i < p.len() - 1 ==> adjacent(#[trigger] p[i], p[i + 1])
    }

    /// The two cells are active and lie in the same block.
    pub open spec fn connected(self, c: Cell, d: Cell) -> bool {
        exists|p: Seq<Cell>| #[trigger] self.is_path(p) && p[0] == c && p.last() == d
    }

    /// The cell touches an undecided cell.
    pub open spec fn open_at(self, c: Cell) -> bool {
        exists|dir: int|
            0 <= dir < 4 && self.inside(#[trigger] neighbour(c, dir)) && self.at(neighbour(c, dir))
                == ShapeCell::Undecided
    }

    /// The cell is active, and its block is closed: none of its cells
    /// touches an undecided cell.
    pub open spec fn closed(self, c: Cell) -> bool {
        self.active(c) && forall|d: Cell| #[trigger] self.connected(c, d) ==> !self.open_at(d)
    }

    /// The cell is active, and the first cell of its block in row-major
    /// order.
    pub open spec fn first_of_block(self, c: Cell) -> bool {
        self.active(c) && forall|d: Cell| #[trigger] self.connected(c, d) ==> !before(d, c)
    }

    /// `cells` lists the cells of the block of `c`, each once, in the order
    /// of a breadth-first search from `c`.
    pub open spec fn lists_block(self, c: Cell, cells: Seq<Cell>) -> bool {
        &&& cells.len() > 0
        &&& cells[0] == c
        &&& cells.no_duplicates()
        &&& forall|d: Cell| cells.contains(d) <==> self.connected(c, d)
        &&& in_search_order(cells)
    }

    /// `s` holds, with each of its cells, the active cells that touch it.
    pub open spec fn closed_under(self, s: spec_fn(Cell) -> bool) -> bool {
        forall|a: Cell, b: Cell| #[trigger] s(a) && self.active(b) && #[trigger] adjacent(a, b) ==> s(b)
    }
}

/// A cell that shares a side with `c` is its neighbour in one of the four
/// directions.
pub proof fn lemma_adjacent(c: Cell, d: Cell)
    ensures
        adjacent(c, d) <==> exists|dir: int| 0 <= dir < 4 && #[trigger] neighbour(c, dir) == d,
        adjacent(c, d) <==> adjacent(d, c),
{
    if adjacent(c, d) {
        if d == neighbour(c, 0) {
        } else if d == neighbour(c, 1) {
        } else if d == neighbour(c, 2) {
        } else {
            assert(d == neighbour(c, 3));
        }
    }
}

/// A set of cells that holds one cell of a path, and with each of its cells
/// the active cells that touch it, holds the whole path.
pub proof fn lemma_path_within(b: Board, s: spec_fn(Cell) -> bool, p: Seq<Cell>, j: int, i: int)
    requires
        b.is_path(p),
        b.closed_under(s),
        0 <= j < p.len(),
        0 <= i < p.len(),
        s(p[j]),
    ensures
        s(p[i]),
    decreases
            if i >= j {
                i - j
            } else {
                j - i
            },
{
    if i > j {
        lemma_path_within(b, s, p, j, i - 1);
        assert(adjacent(p[i - 1], p[i]));
        assert(b.active(p[i]));
    } else if i < j {
        lemma_path_within(b, s, p, j, i + 1);
        assert(adjacent(p[i], p[i + 1]));
        lemma_adjacent(p[i], p[i + 1]);
        assert(b.active(p[i]));
    }
}

/// A path can be gone backwards, and it can be gone one cell further.
pub proof fn lemma_connected(b: Board, c: Cell, d: Cell, e: Cell)
    requires
        b.connected(c, d),
    ensures
        b.connected(d, c),
        b.active(c),
        b.active(d),
        b.connected(c, c),
        b.active(e) && adjacent(d, e) ==> b.connected(c, e),
{
    let p = choose|p: Seq<Cell>| #[trigger] b.is_path(p) && p[0] == c && p.last() == d;
    let r = p.reverse();
    assert(b.is_path(r)) by {
        assert forall|i: int| 0 <= i < r.len() implies b.active(#[trigger] r[i]) by {
            assert(r[i] == p[p.len() - 1 - i]);
        }
        assert forall|i: int| 0 <= i < r.len() - 1 implies adjacent(#[trigger] r[i], r[i + 1]) by {
            assert(r[i] == p[p.len() - 1 - i]);
            assert(r[i + 1] == p[p.len() - 2 - i]);
            assert(adjacent(p[p.len() - 2 - i], p[p.len() - 2 - i + 1]));
            lemma_adjacent(p[p.len() - 2 - i], p[p.len() - 1 - i]);
        }
    }
    assert(r[0] == d && r.last() == c);
    let one = seq![c];
    assert(b.is_path(one));
    assert(one[0] == c && one.last() == c);
    if b.active(e) && adjacent(d, e) {
        let q = p.push(e);
        assert(b.is_path(q)) by {
            assert forall|i: int| 0 <= i < q.len() implies b.active(#[trigger] q[i]) by {
                if i < p.len() {
                    assert(q[i] == p[i]);
                }
            }
            assert forall|i: int| 0 <= i < q.len() - 1 implies adjacent(#[trigger] q[i], q[i + 1]) by {
                if i < p.len() - 1 {
                    assert(q[i] == p[i] && q[i + 1] == p[i + 1]);
                    assert(adjacent(p[i], p[i + 1]));
                }
            }
        }
        assert(q[0] == c && q.last() == e);
    }
}

/// A list of different cells of a board is no longer than the board has
/// cells.
pub proof fn lemma_cells_bounded(b: Board, cells: Seq<Cell>)
    requires
        b.wf(),
        cells.no_duplicates(),
        forall|i: int| 0 <= i < cells.len() ==> b.inside(#[trigger] cells[i]),
    ensures
        cells.len() <= b.height * b.width,
{
    let n = b.height * b.width;
    let idx = Seq::new(cells.len(), |i: int| b.index(cells[i]));
    assert forall|i: int| 0 <= i < idx.len() implies 0 <= #[trigger] idx[i] < n by {
        let c = cells[i];
        assert(b.inside(c));
        assert(0 <= c.0 * b.width + c.1 < b.height * b.width) by (nonlinear_arith)
            requires
                0 <= c.0 < b.height,
                0 <= c.1 < b.width,
        ;
    }
    assert(idx.no_duplicates()) by {
        assert forall|i: int, j: int| 0 <= i < idx.len() && 0 <= j < idx.len() && i != j implies idx[i]
            != idx[j] by {
            let c = cells[i];
            let d = cells[j];
            assert(b.inside(c) && b.inside(d));
            assert(c != d);
            if c.0 * b.width + c.1 == d.0 * b.width + d.1 {
                assert(c.0 == d.0) by (nonlinear_arith)
                    requires
                        c.0 * b.width + c.1 == d.0 * b.width + d.1,
                        0 <= c.1 < b.width,
                        0 <= d.1 < b.width,
                ;
            }
        }
    }
    idx.unique_seq_to_set();
    assert(n >= 0) by (nonlinear_arith)
        requires
            n == b.height * b.width,
            b.height >= 0,
            b.width >= 0,
    ;
    lemma_int_range(0, n);
    assert(idx.to_set().subset_of(set_int_range(0, n))) by {
        assert forall|v: int| idx.to_set().contains(v) implies set_int_range(0, n).contains(v) by {
            let i = choose|i: int| 0 <= i < idx.len() && idx[i] == v;
            assert(0 <= idx[i] < n);
        }
    }
    lemma_len_subset(idx.to_set(), set_int_range(0, n));
}

/// The state of the propagator.
pub ghost struct ShapesState {
    pub board: Board,
    pub stack: Seq<Cell>,
    pub kind: ConstraintType,
}

/// The propagator for the shapes of the blocks of one colour grid.
#[derive(Debug, Clone)]
pub struct ShapesConstraint {
    height: usize,
    width: usize,
    board: Vec<Vec<ShapeCell>>,
    decision_stack: Vec<(usize, usize)>,
    constraint_type: ConstraintType,
}

/// A list of cells with machine coordinates, as cells.
pub open spec fn cells_of(v: Seq<(usize, usize)>) -> Seq<Cell> {
    Seq::new(v.len(), |i: int| (v[i].0 as int, v[i].1 as int))
}

impl View for ShapesConstraint {
    type V = ShapesState;

    closed spec fn view(&self) -> ShapesState {
        ShapesState {
            board: Board {
                height: self.height as int,
                width: self.width as int,
                cells: grid_of(self.board@),
            },
            stack: cells_of(self.decision_stack@),
            kind: self.constraint_type,
        }
    }
}

/// The board with one cell set.
pub open spec fn board_with(b: Board, c: Cell, v: ShapeCell) -> Board {
    Board { cells: b.cells.update(c.0, b.cells[c.0].update(c.1, v)), ..b }
}

/// The board on which nothing is decided.
pub open spec fn blank_board(height: int, width: int) -> Board {
    Board {
        height,
        width,
        cells: Seq::new(
            height as nat,
            |y: int| Seq::new(width as nat, |x: int| ShapeCell::Undecided),
        ),
    }
}

/// What a boolean says of a cell.
pub open spec fn cell_for(value: bool) -> ShapeCell {
    if value {
        ShapeCell::Active
    } else {
        ShapeCell::Inactive
    }
}

impl ShapesState {
    /// The state after the cell with the number `index` was decided.
    pub open spec fn notify(self, index: int, value: bool) -> ShapesState {
        let c = (index / self.board.width, index % self.board.width);
        ShapesState {
            board: board_with(self.board, c, cell_for(value)),
            stack: self.stack.push(c),
            ..self
        }
    }

    /// The state after the last decision was taken back.
    pub open spec fn undo(self) -> ShapesState {
        ShapesState {
            board: board_with(self.board, self.stack.last(), ShapeCell::Undecided),
            stack: self.stack.drop_last(),
            ..self
        }
    }
}

/// Whether the cells of a board of the given size can be numbered: the
/// rows and the columns in an `i32`, the cells in a `usize`.
pub fn board_is_numbered(height: usize, width: usize) -> (r: bool)
    ensures
        r == (height <= i32::MAX && width <= i32::MAX && height * width <= usize::MAX),
{
    if height > 2147483647 || width > 2147483647 {
        return false;
    }
    if width == 0 {
        assert(height * width == 0) by (nonlinear_arith)
            requires
                width == 0,
        ;
        return true;
    }
    let most = usize::MAX / width;
    proof {
        let h = height as int;
        let w = width as int;
        let m = most as int;
        let limit = usize::MAX as int;
        assert(m * w <= limit && limit < (m + 1) * w) by (nonlinear_arith)
            requires
                m == limit / w,
                w > 0,
                limit >= 0,
        ;
        if h <= m {
            assert(h * w <= m * w) by (nonlinear_arith)
                requires
                    h <= m,
                    w > 0,
            ;
        } else {
            assert(h * w >= (m + 1) * w) by (nonlinear_arith)
                requires
                    h >= m + 1,
                    w > 0,
            ;
        }
    }
    height <= most
}

impl ShapesConstraint {
    /// The propagator is in order: its board has its size, the cells of the
    /// board can be numbered, and the decided cells lie on the board.
    pub closed spec fn wf(&self) -> bool {
        &&& is_grid(grid_of(self.board@), self.height as int, self.width as int)
        &&& self.height <= i32::MAX
        &&& self.width <= i32::MAX
        &&& self.height * self.width <= usize::MAX
        &&& forall|i: int|
            0 <= i < self.decision_stack@.len() ==> (#[trigger] self.decision_stack@[i]).0
                < self.height && self.decision_stack@[i].1 < self.width
    }

    /// What holds of a propagator that is in order.
    pub proof fn lemma_wf(&self)
        requires
            self.wf(),
        ensures
            self@.board.wf(),
            self@.board.height <= i32::MAX,
            self@.board.width <= i32::MAX,
            self@.board.height * self@.board.width <= usize::MAX,
            forall|i: int| 0 <= i < self@.stack.len() ==> self@.board.inside(#[trigger] self@.stack[i]),
    {
    }

    /// A propagator for a board of `height` rows and `width` columns, with
    /// nothing decided.
    pub fn new(height: usize, width: usize, constraint_type: ConstraintType) -> (r:
        ShapesConstraint)
        requires
            height <= i32::MAX,
            width <= i32::MAX,
            height * width <= usize::MAX,
        ensures
            r.wf(),
            r@ == (ShapesState {
                board: blank_board(height as int, width as int),
                stack: Seq::empty(),
                kind: constraint_type,
            }),
    {
        let mut board: Vec<Vec<ShapeCell>> = Vec::new();
        for y in 0..height
            invariant
                board@.len() == y,
                forall|i: int| 0 <= i < y ==> (#[trigger] board@[i])@.len() == width,
                forall|i: int, j: int|
                    0 <= i < y && 0 <= j < width ==> (#[trigger] board@[i]@[j])
                        == ShapeCell::Undecided,
        {
            let mut row: Vec<ShapeCell> = Vec::new();
            for x in 0..width
                invariant
                    row@.len() == x,
                    forall|j: int| 0 <= j < x ==> (#[trigger] row@[j]) == ShapeCell::Undecided,
            {
                row.push(ShapeCell::Undecided);
            }
            board.push(row);
        }
        let r = ShapesConstraint {
            height,
            width,
            board,
            decision_stack: Vec::new(),
            constraint_type,
        };
        proof {
            let target = blank_board(height as int, width as int).cells;
            assert(grid_of(r.board@) =~= target) by {
                assert forall|i: int| 0 <= i < height implies #[trigger] grid_of(r.board@)[i]
                    =~= target[i] by {}
            }
            assert(cells_of(r.decision_stack@) =~= Seq::<Cell>::empty());
        }
        r
    }

    /// The number of rows of the board.
    pub fn height(&self) -> (r: usize)
        ensures
            r == self@.board.height,
    {
        self.height
    }

    /// The number of columns of the board.
    pub fn width(&self) -> (r: usize)
        ensures
            r == self@.board.width,
    {
        self.width
    }

    /// How many decisions have been told and not taken back.
    pub fn depth(&self) -> (r: usize)
        ensures
            r == self@.stack.len(),
    {
        self.decision_stack.len()
    }

    /// Is told how many cells the solver watches: as many as the board has.
    pub fn initialize_sat(&mut self, num_inputs: usize)
        requires
            old(self).wf(),
            num_inputs == old(self)@.board.height * old(self)@.board.width,
        ensures
            final(self).wf(),
            final(self)@ == old(self)@,
    {
    }

    /// Sets a cell of the board.
    fn set(&mut self, y: usize, x: usize, v: ShapeCell)
        requires
            old(self).wf(),
            y < old(self).height,
            x < old(self).width,
        ensures
            final(self).wf(),
            final(self)@ == (ShapesState {
                board: board_with(old(self)@.board, (y as int, x as int), v),
                ..old(self)@
            }),
            final(self).decision_stack == old(self).decision_stack,
            final(self).height == old(self).height,
            final(self).width == old(self).width,
    {
        assert(grid_of(self.board@)[y as int].len() == self.width);
        let mut row: Vec<ShapeCell> = Vec::new();
        std::mem::swap(&mut row, &mut self.board[y]);
        row.set(x, v);
        std::mem::swap(&mut row, &mut self.board[y]);
        proof {
            let target = board_with(old(self)@.board, (y as int, x as int), v).cells;
            assert(grid_of(self.board@) =~= target) by {
                assert forall|i: int| 0 <= i < self.height implies #[trigger] grid_of(
                    self.board@,
                )[i] =~= target[i] by {
                    assert(grid_of(old(self).board@)[i].len() == self.width);
                }
            }
        }
    }

    /// Is told that the solver has decided the cell with the number
    /// `index`: it is active if `value` is true, inactive if not.
    pub fn notify(&mut self, index: usize, value: bool)
        requires
            old(self).wf(),
            index < old(self)@.board.height * old(self)@.board.width,
        ensures
            final(self).wf(),
            final(self)@ == old(self)@.notify(index as int, value),
    {
        let ghost h = self.height as int;
        let ghost w = self.width as int;
        assert(w > 0) by (nonlinear_arith)
            requires
                index < h * w,
                h >= 0,
                w >= 0,
                index >= 0,
        ;
        let y = index / self.width;
        let x = index % self.width;
        assert(y < h) by (nonlinear_arith)
            requires
                index < h * w,
                w > 0,
                y == index as int / w,
                index >= 0,
        ;
        self.set(
            y,
            x,
            if value {
                ShapeCell::Active
            } else {
                ShapeCell::Inactive
            },
        );
        self.decision_stack.push((y, x));
        proof {
            assert(cells_of(self.decision_stack@) =~= old(self)@.stack.push((y as int, x as int)));
        }
    }

    /// Is told that the solver has taken its last decision back: the cell
    /// is undecided again.
    pub fn undo(&mut self)
        requires
            old(self).wf(),
            old(self)@.stack.len() > 0,
        ensures
            final(self).wf(),
            final(self)@ == old(self)@.undo(),
    {
        let ghost last = self@.stack.last();
        let (y, x) = self.decision_stack.pop().unwrap();
        assert(last == (y as int, x as int));
        proof {
            assert(cells_of(self.decision_stack@) =~= old(self)@.stack.drop_last());
        }
        self.set(y, x, ShapeCell::Undecided);
    }

    /// What is known of a cell of the board.
    fn cell(&self, y: usize, x: usize) -> (r: ShapeCell)
        requires
            self.wf(),
            y < self.height,
            x < self.width,
        ensures
            r == self@.board.at((y as int, x as int)),
    {
        assert(grid_of(self.board@)[y as int].len() == self.width);
        self.board[y][x]
    }

    /// The neighbour of a cell in a direction, if it lies on the board.
    fn step(&self, y: usize, x: usize, dir: usize) -> (r: Option<(usize, usize)>)
        requires
            self.wf(),
            y < self.height,
            x < self.width,
            dir < 4,
        ensures
            match r {
                Some(n) => (n.0 as int, n.1 as int) == neighbour((y as int, x as int), dir as int)
                    && n.0 < self.height && n.1 < self.width,
                None => !self@.board.inside(neighbour((y as int, x as int), dir as int)),
            },
    {
        if dir == 0 {
            if y > 0 {
                Some((y - 1, x))
            } else {
                None
            }
        } else if dir == 1 {
            if y + 1 < self.height {
                Some((y + 1, x))
            } else {
                None
            }
        } else if dir == 2 {
            if x > 0 {
                Some((y, x - 1))
            } else {
                None
            }
        } else {
            if x + 1 < self.width {
                Some((y, x + 1))
            } else {
                None
            }
        }
    }

    /// Goes through the block of an active cell that has no label, breadth
    /// first, and puts a label on each of its cells. Gives the cells of the
    /// block in the order in which they were found, and whether the block
    /// is closed.
    fn collect_block(&self, y0: usize, x0: usize, labels: &mut Vec<Vec<bool>>) -> (r: (
        Vec<(usize, usize)>,
        bool,
    ))
        requires
            self.wf(),
            y0 < self.height,
            x0 < self.width,
            is_grid(grid_of(old(labels)@), self.height as int, self.width as int),
            self@.board.active((y0 as int, x0 as int)),
            !grid_of(old(labels)@)[y0 as int][x0 as int],
            self@.board.closed_under(label_fn(self@.board, grid_of(old(labels)@))),
        ensures
            is_grid(grid_of(final(labels)@), self.height as int, self.width as int),
            self@.board.lists_block((y0 as int, x0 as int), cells_of(r.0@)),
            r.1 == self@.board.closed((y0 as int, x0 as int)),
            forall|i: int| 0 <= i < r.0@.len() ==> (#[trigger] r.0@[i]).0 < self.height && r.0@[i].1 < self.width,
            forall|c: Cell|
                self@.board.inside(c) ==> (#[trigger] grid_of(final(labels)@)[c.0][c.1] <==> (grid_of(
                    old(labels)@,
                )[c.0][c.1] || self@.board.connected((y0 as int, x0 as int), c))),
            self@.board.closed_under(label_fn(self@.board, grid_of(final(labels)@))),
    {
        let ghost b = self@.board;
        let ghost start = (y0 as int, x0 as int);
        let ghost old_l = grid_of(labels@);
        let height = self.height;
        let width = self.width;
        let mut queue: VecDeque<(usize, usize)> = VecDeque::new();
        queue.push_back((y0, x0));
        set_label(labels, y0, x0);
        let mut is_closed = true;
        let mut block: Vec<(usize, usize)> = Vec::new();
        // The cells found so far, in the order in which they were found: the
        // cells of the block, and behind them the cells that wait in the
        // queue. `head` cells of them have had their turn.
        let ghost mut found: Seq<(usize, usize)> = seq![(y0, x0)];
        let ghost mut head: int = 0;
        let mut going = true;
        let ghost mut keys: Seq<(int, int)> = seq![(0int, 0int)];
        proof {
            self.lemma_wf();
            lemma_connected_self(b, start);
            let cells = cells_of(found);
            assert(cells =~= seq![start]);
            lemma_cells_bounded(b, cells);
            assert forall|c: Cell| b.inside(c) implies (#[trigger] grid_of(labels@)[c.0][c.1] <==> (
            old_l[c.0][c.1] || cells.contains(c))) by {
                assert(old_l[c.0].len() == width);
                if c == start {
                    assert(cells[0] == c);
                }
            }
        }
        while going
            invariant
                found =~= block@ + queue@,
                block@.len() == head,
                !going ==> queue@.len() == 0,
                0 <= head,
                self.wf(),
                b == self@.board,
                b.wf(),
                height == self.height,
                width == self.width,
                start == (y0 as int, x0 as int),
                is_grid(old_l, height as int, width as int),
                is_grid(grid_of(labels@), height as int, width as int),
                b.closed_under(label_fn(b, old_l)),
                head <= found.len(),
                found.len() >= 1,
                found.len() <= height * width,
                cells_of(found)[0] == start,
                cells_of(found).no_duplicates(),
                forall|k: int|
                    0 <= k < found.len() ==> b.inside(#[trigger] cells_of(found)[k]) && b.connected(
                        start,
                        cells_of(found)[k],
                    ) && !old_l[cells_of(found)[k].0][cells_of(found)[k].1],
                forall|c: Cell|
                    b.inside(c) ==> (#[trigger] grid_of(labels@)[c.0][c.1] <==> (old_l[c.0][c.1]
                        || cells_of(found).contains(c))),
                forall|k: int, dir: int|
                    0 <= k < head && 0 <= dir < 4 && b.active(
                        #[trigger] neighbour(cells_of(found)[k], dir),
                    ) ==> cells_of(found).contains(neighbour(cells_of(found)[k], dir)),
                is_closed <==> forall|k: int| 0 <= k < head ==> !b.open_at(#[trigger] cells_of(found)[k]),
                searched(cells_of(found), keys),
                forall|k: int| 1 <= k < found.len() ==> (#[trigger] keys[k]).0 < head,
            decreases height * width - head + if going { 1int } else { 0int },
        {
            let (cy, cx) = match queue.pop_front() {
                Some(c) => c,
                None => {
                    going = false;
                    continue ;
                },
            };
            block.push((cy, cx));
            assert(found[head] == (cy, cx));
            let ghost c = (cy as int, cx as int);
            assert(cells_of(found)[head as int] == c);
            assert(b.inside(c));
            let ghost closed_before = is_closed;
            let mut dir: usize = 0;
            while dir < 4
                invariant
                    found =~= block@ + queue@,
                    block@.len() == head + 1,
                    going,
                    0 <= head,
                    self.wf(),
                    b == self@.board,
                    b.wf(),
                    height == self.height,
                    width == self.width,
                    start == (y0 as int, x0 as int),
                    c == (cy as int, cx as int),
                    cy < height,
                    cx < width,
                    dir <= 4,
                    is_grid(old_l, height as int, width as int),
                    is_grid(grid_of(labels@), height as int, width as int),
                    b.closed_under(label_fn(b, old_l)),
                    head < found.len(),
                    found.len() <= height * width,
                    cells_of(found)[0] == start,
                    cells_of(found)[head as int] == c,
                    cells_of(found).no_duplicates(),
                    forall|k: int|
                        0 <= k < found.len() ==> b.inside(#[trigger] cells_of(found)[k])
                            && b.connected(start, cells_of(found)[k]) && !old_l[cells_of(
                            found,
                        )[k].0][cells_of(found)[k].1],
                    forall|c: Cell|
                        b.inside(c) ==> (#[trigger] grid_of(labels@)[c.0][c.1] <==> (old_l[c.0][c.1]
                            || cells_of(found).contains(c))),
                    forall|k: int, dir: int|
                        0 <= k < head && 0 <= dir < 4 && b.active(
                            #[trigger] neighbour(cells_of(found)[k], dir),
                        ) ==> cells_of(found).contains(neighbour(cells_of(found)[k], dir)),
                    forall|d: int|
                        0 <= d < dir && b.active(#[trigger] neighbour(c, d)) ==> cells_of(
                            found,
                        ).contains(neighbour(c, d)),
                    closed_before <==> forall|k: int|
                        0 <= k < head ==> !b.open_at(#[trigger] cells_of(found)[k]),
                    is_closed <==> closed_before && forall|d: int|
                        0 <= d < dir ==> !(b.inside(#[trigger] neighbour(c, d)) && b.at(
                            neighbour(c, d),
                        ) == ShapeCell::Undecided),
                    searched(cells_of(found), keys),
                    forall|k: int|
                        1 <= k < found.len() ==> before(#[trigger] keys[k], (head as int, dir as int)),
                decreases 4 - dir,
            {
                let ghost cells = cells_of(found);
                match self.step(cy, cx, dir) {
                    Some((ny, nx)) => {
                        let ghost n = (ny as int, nx as int);
                        assert(n == neighbour(c, dir as int));
                        let v = self.cell(ny, nx);
                        if v == ShapeCell::Undecided {
                            is_closed = false;
                        }
                        assert(grid_of(labels@)[ny as int].len() == width);
                        if v == ShapeCell::Active {
                            proof {
                                lemma_adjacent(c, n);
                                lemma_connected(b, start, c, n);
                            }
                            if !labels[ny][nx] {
                                queue.push_back((ny, nx));
                                set_label(labels, ny, nx);
                                let ghost old_keys = keys;
                                proof {
                                    found = found.push((ny, nx));
                                    keys = keys.push((head as int, dir as int));
                                    let after = cells_of(found);
                                    assert(after =~= cells.push(n));
                                    assert(!cells.contains(n));
                                    assert(searched(after, keys)) by {
                                        let last = after.len() - 1;
                                        assert forall|k: int| 1 <= k < after.len() implies 0 <= (
                                        #[trigger] keys[k]).0 < k && 0 <= keys[k].1 < 4 && after[k]
                                            == neighbour(after[keys[k].0], keys[k].1) by {
                                            if k < last {
                                                assert(keys[k] == old_keys[k]);
                                                assert(after[k] == cells[k]);
                                                assert(after[old_keys[k].0] == cells[old_keys[k].0]);
                                            } else {
                                                assert(after[head as int] == c);
                                            }
                                        }
                                        assert forall|k: int, j: int, d: int|
                                            1 <= k < after.len() && 0 <= j && 0 <= d < 4 && before(
                                                (j, d),
                                                #[trigger] keys[k],
                                            ) implies #[trigger] neighbour(after[j], d) != after[k] by {
                                            if k < last {
                                                assert(keys[k] == old_keys[k]);
                                                assert(after[k] == cells[k]);
                                                assert(j <= old_keys[k].0 < k);
                                                assert(after[j] == cells[j]);
                                                assert(neighbour(cells[j], d) != cells[k]);
                                            } else {
                                                assert(after[j] == cells[j]);
                                                if neighbour(cells[j], d) == n {
                                                    if j < head {
                                                        assert(b.active(neighbour(cells[j], d)));
                                                        assert(cells.contains(neighbour(cells[j], d)));
                                                    } else {
                                                        assert(cells[j] == c);
                                                        assert(b.active(neighbour(c, d)));
                                                        assert(cells.contains(neighbour(c, d)));
                                                    }
                                                }
                                            }
                                        }
                                        assert forall|k: int, m: int|
                                            1 <= k < m < after.len() implies before(
                                            #[trigger] keys[k],
                                            #[trigger] keys[m],
                                        ) by {
                                            assert(keys[k] == old_keys[k]);
                                            if m < last {
                                                assert(keys[m] == old_keys[m]);
                                            }
                                        }
                                    }
                                    assert forall|k: int| 1 <= k < after.len() implies before(
                                        #[trigger] keys[k],
                                        (head as int, dir + 1),
                                    ) by {
                                        if k < after.len() - 1 {
                                            assert(keys[k] == old_keys[k]);
                                        }
                                    }
                                    assert(after.no_duplicates());
                                    assert forall|x: Cell| cells.contains(x) implies after.contains(
                                        x,
                                    ) by {
                                        let k = choose|k: int| 0 <= k < cells.len() && cells[k] == x;
                                        assert(after[k] == x);
                                    }
                                    assert(after[after.len() - 1] == n);
                                    assert(after.contains(n));
                                    assert forall|x: Cell| after.contains(x) implies cells.contains(
                                        x,
                                    ) || x == n by {
                                        let k = choose|k: int| 0 <= k < after.len() && after[k] == x;
                                        if k < cells.len() {
                                            assert(cells[k] == x);
                                        }
                                    }
                                    assert(!old_l[n.0][n.1]);
                                    lemma_cells_bounded(b, after);
                                    assert forall|k: int|
                                        0 <= k < after.len() implies b.inside(#[trigger] after[k])
                                        && b.connected(start, after[k]) && !old_l[after[k].0][after[k].1] by {
                                        if k < cells.len() {
                                            assert(after[k] == cells[k]);
                                        }
                                    }
                                    assert forall|k: int, dir: int|
                                        0 <= k < head && 0 <= dir < 4 && b.active(
                                            #[trigger] neighbour(after[k], dir),
                                        ) implies after.contains(neighbour(after[k], dir)) by {
                                        assert(after[k] == cells[k]);
                                        assert(cells.contains(neighbour(cells[k], dir)));
                                    }
                                    assert forall|k: int| 0 <= k < head implies after[k] == cells[k] by {}
                                }
                            } else {
                                proof {
                                    // A labelled neighbour of a cell of the block is in the block.
                                    if old_l[n.0][n.1] {
                                        let f = label_fn(b, old_l);
                                        assert(f(n));
                                        lemma_adjacent(n, c);
                                        assert(b.active(c));
                                        assert(adjacent(n, c));
                                        assert(f(c));
                                        assert(false);
                                    }
                                    assert(cells.contains(n));
                                }
                            }
                        }
                    },
                    None => {},
                }
                dir += 1;
            }
            proof {
                let cells = cells_of(found);
                assert forall|k: int| 1 <= k < found.len() implies (#[trigger] keys[k]).0 < head
                    + 1 by {
                    assert(before(keys[k], (head as int, 4int)));
                }
                assert(b.open_at(c) <==> !(forall|d: int|
                    0 <= d < 4 ==> !(b.inside(#[trigger] neighbour(c, d)) && b.at(neighbour(c, d))
                        == ShapeCell::Undecided)));
                assert forall|k: int, dir: int|
                    0 <= k < head + 1 && 0 <= dir < 4 && b.active(
                        #[trigger] neighbour(cells[k], dir),
                    ) implies cells.contains(neighbour(cells[k], dir)) by {
                    if k == head {
                        assert(cells[k] == c);
                    }
                }
            }
            proof {
                head = head + 1;
            }
        }
        proof {
            let cells = cells_of(found);
            let f = |x: Cell| cells.contains(x);
            assert(b.closed_under(f)) by {
                assert forall|x: Cell, y: Cell| #[trigger]
                    f(x) && b.active(y) && #[trigger] adjacent(x, y) implies f(y) by {
                    let k = choose|k: int| 0 <= k < cells.len() && cells[k] == x;
                    lemma_adjacent(x, y);
                    let dir = choose|dir: int| 0 <= dir < 4 && #[trigger] neighbour(x, dir) == y;
                    assert(b.active(neighbour(cells[k], dir)));
                }
            }
            assert(cells.contains(start)) by {
                assert(cells[0] == start);
            }
            assert forall|d: Cell| cells.contains(d) <==> b.connected(start, d) by {
                if cells.contains(d) {
                    let k = choose|k: int| 0 <= k < cells.len() && cells[k] == d;
                    assert(b.connected(start, cells[k]));
                }
                if b.connected(start, d) {
                    let p = choose|p: Seq<Cell>| #[trigger] b.is_path(p) && p[0] == start && p.last() == d;
                    assert(f(p[0]));
                    lemma_path_within(b, f, p, 0, p.len() - 1);
                }
            }
            assert(is_closed == b.closed(start)) by {
                if is_closed {
                    assert forall|d: Cell| #[trigger] b.connected(start, d) implies !b.open_at(d) by {
                        assert(cells.contains(d));
                        let k = choose|k: int| 0 <= k < cells.len() && cells[k] == d;
                        assert(!b.open_at(cells[k]));
                    }
                } else {
                    let k = choose|k: int| 0 <= k < head && b.open_at(#[trigger] cells[k]);
                    assert(b.connected(start, cells[k]));
                }
            }
            let new_l = grid_of(labels@);
            let g = label_fn(b, new_l);
            let g0 = label_fn(b, old_l);
            assert(b.closed_under(g)) by {
                assert forall|x: Cell, y: Cell| #[trigger]
                    g(x) && b.active(y) && #[trigger] adjacent(x, y) implies g(y) by {
                    assert(new_l[x.0][x.1]);
                    if old_l[x.0][x.1] {
                        assert(g0(x));
                        assert(g0(y));
                        assert(new_l[y.0][y.1]);
                    } else {
                        assert(f(x));
                        assert(f(y));
                        assert(new_l[y.0][y.1]);
                    }
                }
            }
            assert forall|i: int| 0 <= i < found.len() implies (#[trigger] found[i]).0 < self.height
                && found[i].1 < self.width by {
                assert(b.inside(cells[i]));
            }
        }
        proof {
            assert(block@ =~= found);
        }
        (block, is_closed)
    }
}

/// The cells that have a label.
pub open spec fn label_fn(b: Board, labels: Seq<Seq<bool>>) -> spec_fn(Cell) -> bool {
    |c: Cell| b.inside(c) && labels[c.0][c.1]
}

/// An active cell is connected with itself.
pub proof fn lemma_connected_self(b: Board, c: Cell)
    requires
        b.active(c),
    ensures
        b.connected(c, c),
{
    let one = seq![c];
    assert(b.is_path(one));
    assert(one[0] == c && one.last() == c);
}

/// Puts a label on a cell.
fn set_label(labels: &mut Vec<Vec<bool>>, y: usize, x: usize)
    requires
        y < old(labels)@.len(),
        x < old(labels)@[y as int]@.len(),
    ensures
        final(labels)@.len() == old(labels)@.len(),
        forall|i: int|
            0 <= i < old(labels)@.len() ==> (#[trigger] grid_of(final(labels)@)[i]).len() == grid_of(
                old(labels)@,
            )[i].len(),
        forall|i: int, j: int|
            0 <= i < old(labels)@.len() && 0 <= j < grid_of(old(labels)@)[i].len() ==> (
            #[trigger] grid_of(final(labels)@)[i][j]) == (if i == y && j == x {
                true
            } else {
                grid_of(old(labels)@)[i][j]
            }),
{
    let mut row: Vec<bool> = Vec::new();
    std::mem::swap(&mut row, &mut labels[y]);
    row.set(x, true);
    std::mem::swap(&mut row, &mut labels[y]);
}

/// The closed blocks of a board, each with its cells in some order, the
/// first cell of the block first; the blocks in the order of their first
/// cells.
pub open spec fn is_block_list(b: Board, blocks: Seq<Seq<Cell>>) -> bool {
    scanned(b, blocks, (b.height, 0int))
}

/// What holds of the closed blocks found when the cells before `pos` have
/// been gone through: they are the closed blocks whose first cell lies
/// before `pos`, in the order of their first cells.
pub open spec fn scanned(b: Board, blocks: Seq<Seq<Cell>>, pos: Cell) -> bool {
    &&& forall|i: int|
        0 <= i < blocks.len() ==> (#[trigger] blocks[i]).len() > 0 && b.lists_block(
            blocks[i][0],
            blocks[i],
        ) && b.closed(blocks[i][0]) && b.first_of_block(blocks[i][0]) && before(blocks[i][0], pos)
    &&& forall|i: int, j: int|
        0 <= i < j < blocks.len() ==> before((#[trigger] blocks[i])[0], (#[trigger] blocks[j])[0])
    &&& forall|c: Cell|
        before(c, pos) && b.closed(c) && #[trigger] b.first_of_block(c) ==> exists|i: int|
            0 <= i < blocks.len() && (#[trigger] blocks[i])[0] == c
}

/// What holds of the labels when the cells before `pos` have been gone
/// through: the labelled cells are the cells of the blocks that have a
/// cell before `pos`.
pub open spec fn labelled(b: Board, labels: Seq<Seq<bool>>, pos: Cell) -> bool {
    &&& is_grid(labels, b.height, b.width)
    &&& b.closed_under(label_fn(b, labels))
    &&& forall|c: Cell|
        b.inside(c) && before(c, pos) && b.active(c) ==> #[trigger] labels[c.0][c.1]
    &&& forall|c: Cell|
        b.inside(c) && #[trigger] labels[c.0][c.1] ==> exists|c0: Cell|
            before(c0, pos) && #[trigger] b.connected(c0, c)
}

/// A cell that is not active, or has a label, begins no new block.
pub proof fn lemma_scan_skip(b: Board, labels: Seq<Seq<bool>>, blocks: Seq<Seq<Cell>>, pos: Cell)
    requires
        b.wf(),
        b.inside(pos),
        labelled(b, labels, pos),
        scanned(b, blocks, pos),
        !b.active(pos) || labels[pos.0][pos.1],
    ensures
        labelled(b, labels, (pos.0, pos.1 + 1)),
        scanned(b, blocks, (pos.0, pos.1 + 1)),
{
    let next = (pos.0, pos.1 + 1);
    assert forall|c: Cell| b.inside(c) && #[trigger] labels[c.0][c.1] implies exists|c0: Cell|
        before(c0, next) && #[trigger] b.connected(c0, c) by {
        let c0 = choose|c0: Cell| before(c0, pos) && #[trigger] b.connected(c0, c);
        assert(before(c0, next) && b.connected(c0, c));
    }
    assert forall|c: Cell|
        before(c, next) && b.closed(c) && #[trigger] b.first_of_block(c) implies exists|i: int|
        0 <= i < blocks.len() && (#[trigger] blocks[i])[0] == c by {
        if c == pos {
            let c0 = choose|c0: Cell| before(c0, pos) && #[trigger] b.connected(c0, pos);
            lemma_connected(b, c0, pos, pos);
            assert(b.connected(pos, c0));
            assert(false);
        }
    }
}

/// The block of an active cell without a label is a new block, and the
/// cell is its first.
pub proof fn lemma_scan_block(
    b: Board,
    labels: Seq<Seq<bool>>,
    after: Seq<Seq<bool>>,
    blocks: Seq<Seq<Cell>>,
    pos: Cell,
    cells: Seq<Cell>,
)
    requires
        b.wf(),
        b.inside(pos),
        labelled(b, labels, pos),
        scanned(b, blocks, pos),
        b.active(pos),
        !labels[pos.0][pos.1],
        b.lists_block(pos, cells),
        is_grid(after, b.height, b.width),
        b.closed_under(label_fn(b, after)),
        forall|c: Cell|
            b.inside(c) ==> (#[trigger] after[c.0][c.1] <==> (labels[c.0][c.1] || b.connected(
                pos,
                c,
            ))),
    ensures
        b.first_of_block(pos),
        labelled(b, after, (pos.0, pos.1 + 1)),
        b.closed(pos) ==> scanned(b, blocks.push(cells), (pos.0, pos.1 + 1)),
        !b.closed(pos) ==> scanned(b, blocks, (pos.0, pos.1 + 1)),
{
    let next = (pos.0, pos.1 + 1);
    let f = label_fn(b, labels);
    assert forall|d: Cell| #[trigger] b.connected(pos, d) implies !before(d, pos) by {
        if before(d, pos) {
            lemma_connected(b, pos, d, d);
            assert(labels[d.0][d.1]);
            let p = choose|p: Seq<Cell>| #[trigger] b.is_path(p) && p[0] == pos && p.last() == d;
            assert(f(p[p.len() - 1]));
            lemma_path_within(b, f, p, p.len() - 1, 0);
            assert(f(pos));
        }
    }
    lemma_connected_self(b, pos);
    assert forall|c: Cell| b.inside(c) && #[trigger] after[c.0][c.1] implies exists|c0: Cell|
        before(c0, next) && #[trigger] b.connected(c0, c) by {
        if labels[c.0][c.1] {
            let c0 = choose|c0: Cell| before(c0, pos) && #[trigger] b.connected(c0, c);
            assert(before(c0, next) && b.connected(c0, c));
        } else {
            assert(before(pos, next) && b.connected(pos, c));
        }
    }
    assert forall|c: Cell| b.inside(c) && before(c, next) && b.active(c) implies #[trigger] after[c.0][c.1] by {
        if c != pos {
            assert(labels[c.0][c.1]);
        }
    }
    if b.closed(pos) {
        let more = blocks.push(cells);
        assert forall|i: int| 0 <= i < more.len() implies (#[trigger] more[i]).len() > 0
            && b.lists_block(more[i][0], more[i]) && b.closed(more[i][0]) && b.first_of_block(
            more[i][0],
        ) && before(more[i][0], next) by {
            if i < blocks.len() {
                assert(more[i] == blocks[i]);
            }
        }
        assert forall|i: int, j: int| 0 <= i < j < more.len() implies before(
            (#[trigger] more[i])[0],
            (#[trigger] more[j])[0],
        ) by {
            assert(more[i] == blocks[i]);
            if j < blocks.len() {
                assert(more[j] == blocks[j]);
            }
        }
        assert forall|c: Cell|
            before(c, next) && b.closed(c) && #[trigger] b.first_of_block(c) implies exists|i: int|
            0 <= i < more.len() && (#[trigger] more[i])[0] == c by {
            if c == pos {
                assert(more[blocks.len() as int][0] == c);
            } else {
                let i = choose|i: int| 0 <= i < blocks.len() && (#[trigger] blocks[i])[0] == c;
                assert(more[i][0] == c);
            }
        }
    }
}

/// What holds at the end of a row holds at the beginning of the next.
pub proof fn lemma_scan_row(b: Board, labels: Seq<Seq<bool>>, blocks: Seq<Seq<Cell>>, y: int)
    requires
        b.wf(),
        labelled(b, labels, (y, b.width)),
        scanned(b, blocks, (y, b.width)),
    ensures
        labelled(b, labels, (y + 1, 0int)),
        scanned(b, blocks, (y + 1, 0int)),
{
    let pos = (y, b.width);
    let next = (y + 1, 0int);
    assert forall|c: Cell| b.inside(c) && #[trigger] labels[c.0][c.1] implies exists|c0: Cell|
        before(c0, next) && #[trigger] b.connected(c0, c) by {
        let c0 = choose|c0: Cell| before(c0, pos) && #[trigger] b.connected(c0, c);
        assert(before(c0, next) && b.connected(c0, c));
    }
    assert forall|c: Cell|
        before(c, next) && b.closed(c) && #[trigger] b.first_of_block(c) implies exists|i: int|
        0 <= i < blocks.len() && (#[trigger] blocks[i])[0] == c by {
        assert(before(c, pos));
    }
}

/// A closed block: its cells, and the invariant of its shape.
#[derive(Debug, Clone, PartialEq, Eq)]
pub struct ClosedBlock {
    pub canonical: Vec<(i32, i32)>,
    pub cells: Vec<(usize, usize)>,
}

/// The cells of the blocks of a list.
pub open spec fn block_cells(v: Seq<ClosedBlock>) -> Seq<Seq<Cell>> {
    Seq::new(v.len(), |i: int| cells_of(v[i].cells@))
}

/// The blocks of a list lie on a board of the given size, and each has the
/// invariant of its shape.
pub open spec fn blocks_fit(v: Seq<ClosedBlock>, height: int, width: int) -> bool {
    forall|i: int|
        0 <= i < v.len() ==> points_of((#[trigger] v[i]).canonical@) == invariant_of(
            cells_of(v[i].cells@),
        ) && forall|k: int|
            0 <= k < v[i].cells@.len() ==> (#[trigger] v[i].cells@[k]).0 < height
                && v[i].cells@[k].1 < width
}

impl ShapesConstraint {
    /// The closed blocks of the board, in the order of their first cells.
    pub fn closed_blocks(&self) -> (r: Vec<ClosedBlock>)
        requires
            self.wf(),
        ensures
            is_block_list(self@.board, block_cells(r@)),
            blocks_fit(r@, self@.board.height, self@.board.width),
    {
        let height = self.height;
        let width = self.width;
        let ghost b = self@.board;
        let mut labels: Vec<Vec<bool>> = Vec::new();
        for y in 0..height
            invariant
                labels@.len() == y,
                forall|i: int| 0 <= i < y ==> (#[trigger] labels@[i])@.len() == width,
                forall|i: int, j: int| 0 <= i < y && 0 <= j < width ==> !(#[trigger] labels@[i]@[j]),
        {
            let mut row: Vec<bool> = Vec::new();
            for x in 0..width
                invariant
                    row@.len() == x,
                    forall|j: int| 0 <= j < x ==> !(#[trigger] row@[j]),
            {
                row.push(false);
            }
            labels.push(row);
        }
        let mut blocks: Vec<ClosedBlock> = Vec::new();
        proof {
            self.lemma_wf();
            assert(block_cells(blocks@) =~= Seq::<Seq<Cell>>::empty());
            let l = grid_of(labels@);
            assert(is_grid(l, height as int, width as int));
            assert forall|c: Cell| b.inside(c) implies !(#[trigger] l[c.0][c.1]) by {
                assert(!labels@[c.0]@[c.1]);
            }
        }
        for y in 0..height
            invariant
                self.wf(),
                b == self@.board,
                b.wf(),
                height == self.height,
                width == self.width,
                labelled(b, grid_of(labels@), (y as int, 0int)),
                scanned(b, block_cells(blocks@), (y as int, 0int)),
                blocks_fit(blocks@, height as int, width as int),
        {
            for x in 0..width
                invariant
                    self.wf(),
                    b == self@.board,
                    b.wf(),
                    height == self.height,
                    width == self.width,
                    y < height,
                    labelled(b, grid_of(labels@), (y as int, x as int)),
                    scanned(b, block_cells(blocks@), (y as int, x as int)),
                    blocks_fit(blocks@, height as int, width as int),
            {
                let ghost pos = (y as int, x as int);
                let ghost before_labels = grid_of(labels@);
                let ghost before_blocks = block_cells(blocks@);
                assert(before_labels[y as int].len() == width);
                if self.cell(y, x) != ShapeCell::Active || labels[y][x] {
                    proof {
                        lemma_scan_skip(b, before_labels, before_blocks, pos);
                    }
                } else {
                    let (cells, is_closed) = self.collect_block(y, x, &mut labels);
                    proof {
                        lemma_scan_block(
                            b,
                            before_labels,
                            grid_of(labels@),
                            before_blocks,
                            pos,
                            cells_of(cells@),
                        );
                    }
                    if is_closed {
                        let shape = self.shape_of(&cells);
                        let canonical = transform_invariant(shape.as_slice());
                        let ghost old_blocks = blocks@;
                        blocks.push(ClosedBlock { canonical, cells });
                        proof {
                            assert(block_cells(blocks@) =~= before_blocks.push(cells_of(cells@)));
                            assert forall|i: int| 0 <= i < blocks@.len() implies points_of(
                                (#[trigger] blocks@[i]).canonical@,
                            ) == invariant_of(cells_of(blocks@[i].cells@)) && forall|k: int|
                                0 <= k < blocks@[i].cells@.len() ==> (
                                #[trigger] blocks@[i].cells@[k]).0 < height && blocks@[i].cells@[k].1
                                    < width by {
                                if i < old_blocks.len() {
                                    assert(blocks@[i] == old_blocks[i]);
                                }
                            }
                        }
                    }
                }
            }
            proof {
                lemma_scan_row(b, grid_of(labels@), block_cells(blocks@), y as int);
            }
        }
        blocks
    }

    /// The cells of a block as a shape.
    fn shape_of(&self, cells: &Vec<(usize, usize)>) -> (r: Vec<(i32, i32)>)
        requires
            self.wf(),
            cells@.len() > 0,
            forall|i: int|
                0 <= i < cells@.len() ==> (#[trigger] cells@[i]).0 < self.height && cells@[i].1
                    < self.width,
        ensures
            points_of(r@) == cells_of(cells@),
            r@.len() > 0,
            shape_fits(points_of(r@)),
    {
        let mut r: Vec<(i32, i32)> = Vec::new();
        for i in 0..cells.len()
            invariant
                self.wf(),
                forall|i: int|
                    0 <= i < cells@.len() ==> (#[trigger] cells@[i]).0 < self.height && cells@[i].1
                        < self.width,
                r@.len() == i,
                forall|k: int|
                    0 <= k < i ==> (#[trigger] r@[k]).0 == cells@[k].0 && r@[k].1 == cells@[k].1,
        {
            let c = cells[i];
            r.push((c.0 as i32, c.1 as i32));
        }
        proof {
            assert(points_of(r@) =~= cells_of(cells@));
            let s = points_of(r@);
            assert forall|i: int, j: int| 0 <= i < s.len() && 0 <= j < s.len() implies (
            #[trigger] s[i]).0 - (#[trigger] s[j]).0 <= i32::MAX && s[i].1 - s[j].1 <= i32::MAX by {
                assert(0 <= s[i].0 <= i32::MAX && 0 <= s[j].0);
                assert(0 <= s[i].1 <= i32::MAX && 0 <= s[j].1);
            }
        }
        r
    }
}

/// The first two blocks that break the rule, by the invariants of the
/// blocks in their order: where all shapes must differ, the first block
/// that has the shape of a block before it, with the first such block;
/// where all shapes must be the same, the first block that has not the
/// shape of the first block, with the first block. `None` if no block
/// breaks the rule.
pub open spec fn is_violation(
    kind: ConstraintType,
    shapes: Seq<Seq<Point>>,
    pair: Option<(int, int)>,
) -> bool {
    match kind {
        ConstraintType::AllDifferent => match pair {
            None => forall|i: int, j: int|
                0 <= j < i < shapes.len() ==> #[trigger] shapes[i] != #[trigger] shapes[j],
            Some((i, j)) => {
                &&& 0 <= j < i < shapes.len()
                &&& shapes[i] == shapes[j]
                &&& forall|k: int| 0 <= k < j ==> #[trigger] shapes[k] != shapes[i]
                &&& forall|a: int, c: int|
                    0 <= c < a < i ==> #[trigger] shapes[a] != #[trigger] shapes[c]
            },
        },
        ConstraintType::AllEqual => match pair {
            None => forall|i: int| 0 <= i < shapes.len() ==> #[trigger] shapes[i] == shapes[0],
            Some((i, j)) => {
                &&& j == 0
                &&& 1 <= i < shapes.len()
                &&& shapes[i] != shapes[0]
                &&& forall|k: int| 0 <= k < i ==> #[trigger] shapes[k] == shapes[0]
            },
        },
    }
}

/// The invariants of the shapes of the blocks of a list.
pub open spec fn shapes_of(blocks: Seq<Seq<Cell>>) -> Seq<Seq<Point>> {
    Seq::new(blocks.len(), |i: int| invariant_of(blocks[i]))
}

/// That the neighbour of a cell in a direction is inactive, if it is so.
pub open spec fn side_fn(b: Board, c: Cell) -> spec_fn(int) -> Seq<(int, bool)> {
    |dir: int|
        if b.inside(neighbour(c, dir)) && b.at(neighbour(c, dir)) == ShapeCell::Inactive {
            seq![(b.index(neighbour(c, dir)), false)]
        } else {
            Seq::empty()
        }
}

/// Why a cell of a block is what it is for the block: the cell is active,
/// and the neighbours that are inactive are inactive, in the order up,
/// down, left, right. A cell is told by its number.
pub open spec fn cell_reason(b: Board, c: Cell) -> Seq<(int, bool)> {
    seq![(b.index(c), true)] + concat_upto(4, side_fn(b, c))
}

/// `cell_reason` for each cell of a list.
pub open spec fn cell_reason_fn(b: Board, cells: Seq<Cell>) -> spec_fn(int) -> Seq<(int, bool)> {
    |i: int| cell_reason(b, cells[i])
}

/// Why a closed block has its shape: the reasons of its cells, one after
/// the other.
pub open spec fn block_reason(b: Board, cells: Seq<Cell>) -> Seq<(int, bool)> {
    concat_upto(cells.len() as int, cell_reason_fn(b, cells))
}

/// A list of decisions with machine numbers, as decisions of cells.
pub open spec fn literals_of(v: Seq<(usize, bool)>) -> Seq<(int, bool)> {
    Seq::new(v.len(), |i: int| (v[i].0 as int, v[i].1))
}

/// What is found of the closed blocks `blocks` whose first violation is
/// `pair`: nothing if no two blocks break the rule; else the reasons of the
/// two blocks that do.
pub open spec fn finding(b: Board, blocks: Seq<Seq<Cell>>, pair: Option<(int, int)>) -> Option<
    Seq<(int, bool)>,
> {
    match pair {
        None => None,
        Some((i, j)) => Some(block_reason(b, blocks[i]) + block_reason(b, blocks[j])),
    }
}

impl ShapesState {
    /// `found` is what the propagator finds: `blocks` are the closed blocks
    /// of the board, `pair` are the first two of them that break the rule,
    /// and `found` gives the reasons of those two.
    pub open spec fn finds(
        self,
        blocks: Seq<Seq<Cell>>,
        pair: Option<(int, int)>,
        found: Option<Seq<(int, bool)>>,
    ) -> bool {
        &&& is_block_list(self.board, blocks)
        &&& is_violation(self.kind, shapes_of(blocks), pair)
        &&& found == finding(self.board, blocks, pair)
    }
}

/// What was found, as decisions of cells.
pub open spec fn found_of(r: Option<Vec<(usize, bool)>>) -> Option<Seq<(int, bool)>> {
    match r {
        Some(v) => Some(literals_of(v@)),
        None => None,
    }
}

/// The first two blocks of a list that break the rule.
pub fn first_violation(kind: ConstraintType, blocks: &Vec<ClosedBlock>) -> (r: Option<
    (usize, usize),
>)
    requires
        forall|i: int|
            0 <= i < blocks@.len() ==> points_of((#[trigger] blocks@[i]).canonical@) == invariant_of(
                cells_of(blocks@[i].cells@),
            ),
    ensures
        is_violation(
            kind,
            shapes_of(block_cells(blocks@)),
            match r {
                Some((i, j)) => Some((i as int, j as int)),
                None => None,
            },
        ),
        r is Some ==> r->Some_0.0 < blocks@.len() && r->Some_0.1 < blocks@.len(),
{
    let n = blocks.len();
    let ghost shapes = shapes_of(block_cells(blocks@));
    proof {
        assert forall|i: int| 0 <= i < n implies #[trigger] shapes[i] == points_of(
            blocks@[i].canonical@,
        ) by {}
    }
    match kind {
        ConstraintType::AllDifferent => {
            let mut i: usize = 1;
            while i < n
                invariant
                    n == blocks@.len(),
                    1 <= i,
                    kind == ConstraintType::AllDifferent,
                    shapes == shapes_of(block_cells(blocks@)),
                    shapes.len() == n,
                    forall|i: int| 0 <= i < n ==> #[trigger] shapes[i] == points_of(blocks@[i].canonical@),
                    forall|a: int, c: int|
                        0 <= c < a < i && a < n ==> #[trigger] shapes[a] != #[trigger] shapes[c],
                decreases n - i,
            {
                let mut j: usize = 0;
                while j < i
                    invariant
                        n == blocks@.len(),
                        i < n,
                        j <= i,
                        kind == ConstraintType::AllDifferent,
                        shapes == shapes_of(block_cells(blocks@)),
                        shapes.len() == n,
                        forall|a: int, c: int|
                            0 <= c < a < i && a < n ==> #[trigger] shapes[a] != #[trigger] shapes[c],
                        forall|i: int|
                            0 <= i < n ==> #[trigger] shapes[i] == points_of(blocks@[i].canonical@),
                        forall|k: int| 0 <= k < j ==> #[trigger] shapes[k] != shapes[i as int],
                    decreases i - j,
                {
                    if shape_equal(&blocks[i].canonical, &blocks[j].canonical) {
                        assert(shapes[i as int] == shapes[j as int]);
                        return Some((i, j));
                    }
                    j += 1;
                }
                i += 1;
            }
            None
        },
        ConstraintType::AllEqual => {
            let mut i: usize = 1;
            while i < n
                invariant
                    n == blocks@.len(),
                    1 <= i,
                    kind == ConstraintType::AllEqual,
                    shapes == shapes_of(block_cells(blocks@)),
                    shapes.len() == n,
                    forall|i: int| 0 <= i < n ==> #[trigger] shapes[i] == points_of(blocks@[i].canonical@),
                    forall|k: int| 0 <= k < i && k < n ==> #[trigger] shapes[k] == shapes[0],
                decreases n - i,
            {
                if !shape_equal(&blocks[i].canonical, &blocks[0].canonical) {
                    assert(shapes[i as int] != shapes[0]);
                    return Some((i, 0));
                }
                i += 1;
            }
            None
        },
    }
}

impl ShapesConstraint {
    /// Appends to `out` why a closed block has its shape.
    fn explain(&self, cells: &Vec<(usize, usize)>, out: &mut Vec<(usize, bool)>)
        requires
            self.wf(),
            forall|k: int|
                0 <= k < cells@.len() ==> (#[trigger] cells@[k]).0 < self.height && cells@[k].1
                    < self.width,
        ensures
            literals_of(final(out)@) == literals_of(old(out)@) + block_reason(
                self@.board,
                cells_of(cells@),
            ),
    {
        let ghost b = self@.board;
        let ghost cs = cells_of(cells@);
        let ghost f = cell_reason_fn(b, cs);
        let ghost base = literals_of(out@);
        let height = self.height;
        let width = self.width;
        proof {
            self.lemma_wf();
            assert(base + concat_upto(0, f) =~= base);
        }
        for i in 0..cells.len()
            invariant
                self.wf(),
                b == self@.board,
                b.wf(),
                height == self.height,
                width == self.width,
                height * width <= usize::MAX,
                cs == cells_of(cells@),
                f == cell_reason_fn(b, cs),
                forall|k: int|
                    0 <= k < cells@.len() ==> (#[trigger] cells@[k]).0 < self.height && cells@[k].1
                        < self.width,
                literals_of(out@) == base + concat_upto(i as int, f),
        {
            let (y, x) = cells[i];
            let ghost c = (y as int, x as int);
            assert(cs[i as int] == c);
            let ghost sofar = literals_of(out@);
            let ghost sf = side_fn(b, c);
            proof {
                lemma_index_bound(b, c);
            }
            out.push((y * width + x, true));
            proof {
                assert(literals_of(out@) =~= sofar + seq![(b.index(c), true)] + concat_upto(
                    0,
                    sf,
                ));
            }
            for dir in 0..4usize
                invariant
                    self.wf(),
                    b == self@.board,
                    b.wf(),
                    height == self.height,
                    width == self.width,
                    height * width <= usize::MAX,
                    y < height,
                    x < width,
                    c == (y as int, x as int),
                    sf == side_fn(b, c),
                    literals_of(out@) == sofar + seq![(b.index(c), true)] + concat_upto(
                        dir as int,
                        sf,
                    ),
            {
                let ghost inner = literals_of(out@);
                match self.step(y, x, dir) {
                    Some((ny, nx)) => {
                        if self.cell(ny, nx) == ShapeCell::Inactive {
                            proof {
                                lemma_index_bound(b, (ny as int, nx as int));
                            }
                            out.push((ny * width + nx, false));
                            proof {
                                assert(literals_of(out@) =~= inner + sf(dir as int));
                            }
                        } else {
                            proof {
                                assert(inner =~= inner + sf(dir as int));
                            }
                        }
                    },
                    None => {
                        proof {
                            assert(inner =~= inner + sf(dir as int));
                        }
                    },
                }
                proof {
                    assert(sofar + seq![(b.index(c), true)] + concat_upto(dir as int, sf) + sf(
                        dir as int,
                    ) =~= sofar + seq![(b.index(c), true)] + concat_upto(dir + 1, sf));
                }
            }
            proof {
                assert(sofar + seq![(b.index(c), true)] + concat_upto(4, sf) =~= sofar + f(
                    i as int,
                ));
                assert(base + concat_upto(i as int, f) + f(i as int) =~= base + concat_upto(
                    i + 1,
                    f,
                ));
            }
        }
    }

    /// Looks for two closed blocks that break the rule. If there are none,
    /// the result is `None`. Else it is the reason of the first two that
    /// do: the decisions by which the two blocks are closed and have their
    /// shapes. The state is left as it is.
    pub fn find_inconsistency(&self) -> (r: Option<Vec<(usize, bool)>>)
        requires
            self.wf(),
        ensures
            exists|blocks: Seq<Seq<Cell>>, pair: Option<(int, int)>| #[trigger]
                self@.finds(blocks, pair, found_of(r)),
            r is Some <==> breaks(self@.board, self@.kind),
    {
        let blocks = self.closed_blocks();
        let ghost bl = block_cells(blocks@);
        let found = first_violation(self.constraint_type, &blocks);
        match found {
            None => {
                proof {
                    assert(self@.finds(bl, None, found_of(None)));
                    lemma_found_iff_breaks(self@, bl, None, found_of(None));
                }
                None
            },
            Some((p, q)) => {
                let mut ret: Vec<(usize, bool)> = Vec::new();
                assert(literals_of(ret@) =~= Seq::<(int, bool)>::empty());
                assert(bl[p as int] == cells_of(blocks@[p as int].cells@));
                assert(bl[q as int] == cells_of(blocks@[q as int].cells@));
                self.explain(&blocks[p].cells, &mut ret);
                self.explain(&blocks[q].cells, &mut ret);
                proof {
                    assert(literals_of(ret@) =~= block_reason(self@.board, bl[p as int])
                        + block_reason(self@.board, bl[q as int]));
                    assert(self@.finds(bl, Some((p as int, q as int)), found_of(Some(ret))));
                    lemma_found_iff_breaks(
                        self@,
                        bl,
                        Some((p as int, q as int)),
                        found_of(Some(ret)),
                    );
                }
                Some(ret)
            },
        }
    }
}

/// The number of a cell of the board is less than the number of cells.
pub proof fn lemma_index_bound(b: Board, c: Cell)
    requires
        b.wf(),
        b.inside(c),
    ensures
        0 <= b.index(c) < b.height * b.width,
{
    assert(0 <= c.0 * b.width + c.1 < b.height * b.width) by (nonlinear_arith)
        requires
            0 <= c.0 < b.height,
            0 <= c.1 < b.width,
    ;
}

/// Two lists of the cells of a block in the order of the search agree in
/// their first `n` cells.
proof fn lemma_listing_prefix(
    b: Board,
    c: Cell,
    l1: Seq<Cell>,
    l2: Seq<Cell>,
    k1: Seq<(int, int)>,
    k2: Seq<(int, int)>,
    n: int,
)
    requires
        b.lists_block(c, l1),
        b.lists_block(c, l2),
        searched(l1, k1),
        searched(l2, k2),
        l1.len() == l2.len(),
        0 <= n <= l1.len(),
    ensures
        forall|i: int| 0 <= i < n ==> l1[i] == l2[i],
    decreases n,
{
    if n <= 1 {
    } else {
        lemma_listing_prefix(b, c, l1, l2, k1, k2, n - 1);
        let t = n - 1;
        let x = l1[t];
        let (j, d) = k1[t];
        assert(l1[j] == l2[j]);
        assert(x == neighbour(l2[j], d));
        assert(l1.contains(x));
        assert(b.connected(c, x));
        assert(l2.contains(x));
        let m = choose|m: int| 0 <= m < l2.len() && l2[m] == x;
        if m < t {
            assert(l1[m] == l2[m]);
            assert(false);
        }
        if m > t {
            let y = l2[t];
            let (j2, d2) = k2[t];
            assert(before(k2[t], k2[m]));
            if before((j, d), k2[m]) {
                assert(neighbour(l2[j], d) != l2[m]);
                assert(false);
            }
            assert(before((j2, d2), (j, d)));
            assert(l2[j2] == l1[j2]);
            assert(y == neighbour(l1[j2], d2));
            assert(l2.contains(y));
            assert(b.connected(c, y));
            assert(l1.contains(y));
            let m2 = choose|m2: int| 0 <= m2 < l1.len() && l1[m2] == y;
            if m2 < t {
                assert(l2[m2] == l1[m2]);
                assert(false);
            }
            assert(m2 != t);
            assert(before(k1[t], k1[m2]));
            assert(before((j2, d2), k1[m2]));
            assert(neighbour(l1[j2], d2) != l1[m2]);
            assert(false);
        }
    }
}

/// A block has one list of its cells in the order of the search from a
/// cell.
pub proof fn lemma_listing_unique(b: Board, c: Cell, l1: Seq<Cell>, l2: Seq<Cell>)
    requires
        b.lists_block(c, l1),
        b.lists_block(c, l2),
    ensures
        l1 == l2,
{
    l1.unique_seq_to_set();
    l2.unique_seq_to_set();
    assert(l1.to_set() =~= l2.to_set());
    let k1 = choose|keys: Seq<(int, int)>| searched(l1, keys);
    let k2 = choose|keys: Seq<(int, int)>| searched(l2, keys);
    lemma_listing_prefix(b, c, l1, l2, k1, k2, l1.len() as int);
    assert(l1 =~= l2);
}

/// Two lists of the closed blocks of a board agree in their first `n`
/// blocks.
proof fn lemma_block_list_prefix(b: Board, x: Seq<Seq<Cell>>, y: Seq<Seq<Cell>>, n: int)
    requires
        is_block_list(b, x),
        is_block_list(b, y),
        0 <= n <= x.len(),
    ensures
        n <= y.len(),
        forall|i: int| 0 <= i < n ==> x[i] == y[i],
    decreases n,
{
    if n > 0 {
        lemma_block_list_prefix(b, x, y, n - 1);
        let t = n - 1;
        let c = x[t][0];
        assert(b.closed(c) && b.first_of_block(c) && before(c, (b.height, 0int)));
        let m = choose|m: int| 0 <= m < y.len() && (#[trigger] y[m])[0] == c;
        if m < t {
            assert(x[m] == y[m]);
            assert(before(x[m][0], x[t][0]));
            assert(false);
        }
        if m > t {
            let e = y[t][0];
            assert(b.closed(e) && b.first_of_block(e) && before(e, (b.height, 0int)));
            assert(before(y[t][0], y[m][0]));
            let m2 = choose|m2: int| 0 <= m2 < x.len() && (#[trigger] x[m2])[0] == e;
            if m2 < t {
                assert(x[m2] == y[m2]);
                assert(before(y[m2][0], y[t][0]));
                assert(false);
            }
            if m2 > t {
                assert(before(x[t][0], x[m2][0]));
            }
            assert(false);
        }
        lemma_listing_unique(b, c, x[t], y[t]);
    }
}

/// A board has one list of its closed blocks.
pub proof fn lemma_block_list_unique(b: Board, x: Seq<Seq<Cell>>, y: Seq<Seq<Cell>>)
    requires
        is_block_list(b, x),
        is_block_list(b, y),
    ensures
        x == y,
{
    lemma_block_list_prefix(b, x, y, x.len() as int);
    lemma_block_list_prefix(b, y, x, y.len() as int);
    assert(x =~= y);
}

/// A list of shapes has one first violation of a rule.
pub proof fn lemma_violation_unique(
    kind: ConstraintType,
    shapes: Seq<Seq<Point>>,
    p: Option<(int, int)>,
    q: Option<(int, int)>,
)
    requires
        is_violation(kind, shapes, p),
        is_violation(kind, shapes, q),
    ensures
        p == q,
{
    match kind {
        ConstraintType::AllDifferent => {
            if p is Some && q is Some {
                let (i, j) = p->Some_0;
                let (a, c) = q->Some_0;
                if i < a {
                    assert(shapes[i] != shapes[j]);
                }
                if a < i {
                    assert(shapes[a] != shapes[c]);
                }
                if j < c {
                    assert(shapes[j] != shapes[a]);
                }
                if c < j {
                    assert(shapes[c] != shapes[i]);
                }
            } else if p is Some {
                let (i, j) = p->Some_0;
                assert(shapes[i] != shapes[j]);
            } else if q is Some {
                let (a, c) = q->Some_0;
                assert(shapes[a] != shapes[c]);
            }
        },
        ConstraintType::AllEqual => {
            if p is Some && q is Some {
                let (i, j) = p->Some_0;
                let (a, c) = q->Some_0;
                if i < a {
                    assert(shapes[i] == shapes[0]);
                }
                if a < i {
                    assert(shapes[a] == shapes[0]);
                }
            } else if p is Some {
                let (i, j) = p->Some_0;
                assert(shapes[i] == shapes[0]);
            } else if q is Some {
                let (a, c) = q->Some_0;
                assert(shapes[a] == shapes[0]);
            }
        },
    }
}

/// What the propagator finds is settled by its state.
pub proof fn lemma_finding_unique(
    s: ShapesState,
    blocks1: Seq<Seq<Cell>>,
    pair1: Option<(int, int)>,
    found1: Option<Seq<(int, bool)>>,
    blocks2: Seq<Seq<Cell>>,
    pair2: Option<(int, int)>,
    found2: Option<Seq<(int, bool)>>,
)
    requires
        s.finds(blocks1, pair1, found1),
        s.finds(blocks2, pair2, found2),
    ensures
        blocks1 == blocks2,
        pair1 == pair2,
        found1 == found2,
{
    lemma_block_list_unique(s.board, blocks1, blocks2);
    lemma_violation_unique(s.kind, shapes_of(blocks1), pair1, pair2);
}

/// The cell with a number, on a board of the given width.
pub open spec fn cell_at(width: int, index: int) -> Cell {
    (index / width, index % width)
}

/// The board agrees with each decision of a list: the cell of the decision
/// is active where the decision says true, and inactive where it says
/// false.
pub open spec fn agrees(b: Board, reason: Seq<(int, bool)>) -> bool {
    forall|k: int|
        0 <= k < reason.len() ==> b.at(cell_at(b.width, (#[trigger] reason[k]).0)) == cell_for(
            reason[k].1,
        )
}

/// Two closed blocks of the board break the rule: they are two blocks of
/// one shape where all shapes must differ, or two blocks of different
/// shapes where all shapes must be the same.
pub open spec fn breaks(b: Board, kind: ConstraintType) -> bool {
    exists|x: Seq<Cell>, y: Seq<Cell>| #[trigger]
        b.lists_block(x[0], x) && #[trigger] b.lists_block(y[0], y) && b.closed(x[0]) && b.closed(
            y[0],
        ) && match kind {
            ConstraintType::AllDifferent => !b.connected(x[0], y[0]) && invariant_of(x)
                == invariant_of(y),
            ConstraintType::AllEqual => invariant_of(x) != invariant_of(y),
        }
}

/// The cell with the number of a cell is the cell.
pub proof fn lemma_cell_at(b: Board, c: Cell)
    requires
        b.wf(),
        b.inside(c),
    ensures
        cell_at(b.width, b.index(c)) == c,
{
    let w = b.width;
    assert((c.0 * w + c.1) / w == c.0 && (c.0 * w + c.1) % w == c.1) by (nonlinear_arith)
        requires
            0 <= c.1 < w,
            0 <= c.0,
    ;
}

/// The reason of a block says of each cell of the block that it is active,
/// and of each inactive neighbour of such a cell that it is inactive.
pub proof fn lemma_reason_holds(b: Board, b2: Board, cells: Seq<Cell>, i: int, dir: int)
    requires
        b.wf(),
        b2.wf(),
        b2.height == b.height,
        b2.width == b.width,
        agrees(b2, block_reason(b, cells)),
        0 <= i < cells.len(),
        b.inside(cells[i]),
        0 <= dir < 4,
    ensures
        b2.at(cells[i]) == ShapeCell::Active,
        b.inside(neighbour(cells[i], dir)) && b.at(neighbour(cells[i], dir))
            == ShapeCell::Inactive ==> b2.at(neighbour(cells[i], dir)) == ShapeCell::Inactive,
{
    let reason = block_reason(b, cells);
    let f = cell_reason_fn(b, cells);
    let c = cells[i];
    let here = (b.index(c), true);
    assert(f(i)[0] == here);
    assert(f(i).contains(here));
    lemma_concat_holds(cells.len() as int, f, i, here);
    let k = choose|k: int| 0 <= k < reason.len() && reason[k] == here;
    lemma_cell_at(b, c);
    assert(b2.at(cell_at(b2.width, reason[k].0)) == cell_for(reason[k].1));
    let n = neighbour(c, dir);
    if b.inside(n) && b.at(n) == ShapeCell::Inactive {
        let sf = side_fn(b, c);
        let there = (b.index(n), false);
        assert(sf(dir)[0] == there);
        assert(sf(dir).contains(there));
        lemma_concat_holds(4, sf, dir, there);
        let sides = concat_upto(4, sf);
        let m = choose|m: int| 0 <= m < sides.len() && sides[m] == there;
        assert(f(i)[1 + m] == there);
        assert(f(i).contains(there));
        lemma_concat_holds(cells.len() as int, f, i, there);
        let k2 = choose|k2: int| 0 <= k2 < reason.len() && reason[k2] == there;
        lemma_cell_at(b, n);
        assert(b2.at(cell_at(b2.width, reason[k2].0)) == cell_for(reason[k2].1));
    }
}

/// A closed block stays a closed block, with the same cells, on every
/// board that agrees with its reason.
pub proof fn lemma_block_stays(b: Board, b2: Board, cells: Seq<Cell>)
    requires
        b.wf(),
        b2.wf(),
        b2.height == b.height,
        b2.width == b.width,
        b.lists_block(cells[0], cells),
        b.closed(cells[0]),
        agrees(b2, block_reason(b, cells)),
    ensures
        b2.lists_block(cells[0], cells),
        b2.closed(cells[0]),
        forall|d: Cell| b2.connected(cells[0], d) <==> b.connected(cells[0], d),
{
    let c = cells[0];
    assert forall|i: int| 0 <= i < cells.len() implies b.active(#[trigger] cells[i]) && b2.active(
        cells[i],
    ) by {
        assert(cells.contains(cells[i]));
        lemma_connected(b, c, cells[i], cells[i]);
        lemma_reason_holds(b, b2, cells, i, 0);
    }
    let f = |x: Cell| cells.contains(x);
    // The cells of the block hold, on the other board, every active cell
    // that touches one of them.
    assert(b2.closed_under(f)) by {
        assert forall|x: Cell, y: Cell| #[trigger]
            f(x) && b2.active(y) && #[trigger] adjacent(x, y) implies f(y) by {
            let i = choose|i: int| 0 <= i < cells.len() && cells[i] == x;
            lemma_adjacent(x, y);
            let dir = choose|dir: int| 0 <= dir < 4 && #[trigger] neighbour(x, dir) == y;
            lemma_reason_holds(b, b2, cells, i, dir);
            lemma_connected(b, c, x, y);
            if b.at(y) == ShapeCell::Undecided {
                assert(b.inside(neighbour(x, dir)));
                assert(b.open_at(x));
                assert(b.connected(c, x));
            }
            assert(b.active(y));
        }
    }
    assert forall|d: Cell| b2.connected(c, d) <==> b.connected(c, d) by {
        if b2.connected(c, d) {
            let p = choose|p: Seq<Cell>| #[trigger] b2.is_path(p) && p[0] == c && p.last() == d;
            assert(f(p[0])) by {
                assert(cells[0] == c);
            }
            lemma_path_within(b2, f, p, 0, p.len() - 1);
            assert(cells.contains(d));
        }
        if b.connected(c, d) {
            let p = choose|p: Seq<Cell>| #[trigger] b.is_path(p) && p[0] == c && p.last() == d;
            let g = |x: Cell| b.connected(c, x);
            assert(b.closed_under(g)) by {
                assert forall|x: Cell, y: Cell| #[trigger]
                    g(x) && b.active(y) && #[trigger] adjacent(x, y) implies g(y) by {
                    lemma_connected(b, c, x, y);
                }
            }
            assert(b2.is_path(p)) by {
                assert forall|i: int| 0 <= i < p.len() implies b2.active(#[trigger] p[i]) by {
                    lemma_connected_self(b, c);
                    assert(g(p[0]));
                    lemma_path_within(b, g, p, 0, i);
                    assert(cells.contains(p[i]));
                    let k = choose|k: int| 0 <= k < cells.len() && cells[k] == p[i];
                    assert(b2.active(cells[k]));
                }
            }
        }
    }
    assert forall|d: Cell| #[trigger] b2.connected(c, d) implies !b2.open_at(d) by {
        assert(cells.contains(d));
        let i = choose|i: int| 0 <= i < cells.len() && cells[i] == d;
        if b2.open_at(d) {
            let dir = choose|dir: int|
                0 <= dir < 4 && b2.inside(#[trigger] neighbour(d, dir)) && b2.at(neighbour(d, dir))
                    == ShapeCell::Undecided;
            let n = neighbour(d, dir);
            lemma_reason_holds(b, b2, cells, i, dir);
            assert(b.inside(n));
            assert(!b.open_at(d));
            if b.at(n) == ShapeCell::Active {
                lemma_adjacent(d, n);
                lemma_connected(b, c, d, n);
                assert(cells.contains(n));
                let k = choose|k: int| 0 <= k < cells.len() && cells[k] == n;
                assert(b2.active(cells[k]));
            }
        }
    }
    assert(b2.active(c));
}

/// What the propagator finds is a reason: on every board that agrees with
/// the decisions of the reason, the two blocks of the reason are closed
/// blocks, and they break the rule.
pub proof fn lemma_reason_is_valid(
    s: ShapesState,
    blocks: Seq<Seq<Cell>>,
    pair: (int, int),
    reason: Seq<(int, bool)>,
    b2: Board,
)
    requires
        s.board.wf(),
        s.finds(blocks, Some(pair), Some(reason)),
        b2.wf(),
        b2.height == s.board.height,
        b2.width == s.board.width,
        agrees(b2, reason),
    ensures
        breaks(b2, s.kind),
{
    let b = s.board;
    let (i, j) = pair;
    let x = blocks[i];
    let y = blocks[j];
    let rx = block_reason(b, x);
    let ry = block_reason(b, y);
    assert(reason == rx + ry);
    assert(0 <= i < blocks.len() && 0 <= j < blocks.len() && i != j);
    assert(agrees(b2, rx)) by {
        assert forall|k: int| 0 <= k < rx.len() implies b2.at(
            cell_at(b2.width, (#[trigger] rx[k]).0),
        ) == cell_for(rx[k].1) by {
            assert(reason[k] == rx[k]);
        }
    }
    assert(agrees(b2, ry)) by {
        assert forall|k: int| 0 <= k < ry.len() implies b2.at(
            cell_at(b2.width, (#[trigger] ry[k]).0),
        ) == cell_for(ry[k].1) by {
            assert(reason[rx.len() + k] == ry[k]);
        }
    }
    lemma_block_stays(b, b2, x);
    lemma_block_stays(b, b2, y);
    assert(shapes_of(blocks)[i] == invariant_of(x));
    assert(shapes_of(blocks)[j] == invariant_of(y));
    if b.connected(x[0], y[0]) {
        lemma_connected(b, x[0], y[0], y[0]);
        assert(b.connected(y[0], x[0]));
        if i < j {
            assert(before(blocks[i][0], blocks[j][0]));
        } else {
            assert(before(blocks[j][0], blocks[i][0]));
        }
        assert(false);
    }
    assert(b2.lists_block(x[0], x) && b2.lists_block(y[0], y));
}

/// Among the first `n` cells of a list, one comes before no other.
proof fn lemma_first_cell(l: Seq<Cell>, n: int) -> (i: int)
    requires
        0 < n <= l.len(),
    ensures
        0 <= i < n,
        forall|k: int| 0 <= k < n ==> !before(#[trigger] l[k], l[i]),
    decreases n,
{
    if n == 1 {
        0
    } else {
        let i = lemma_first_cell(l, n - 1);
        if before(l[n - 1], l[i]) {
            n - 1
        } else {
            i
        }
    }
}

/// The block of a cell has a first cell; if the block is closed, it is the
/// closed block of its first cell.
pub proof fn lemma_block_has_first(b: Board, c: Cell, l: Seq<Cell>) -> (r: Cell)
    requires
        b.lists_block(c, l),
    ensures
        b.connected(c, r),
        b.first_of_block(r),
        b.closed(c) ==> b.closed(r),
        forall|d: Cell| b.connected(r, d) <==> b.connected(c, d),
{
    let i = lemma_first_cell(l, l.len() as int);
    let r = l[i];
    assert(l.contains(r));
    lemma_connected(b, c, r, r);
    let g = |x: Cell| b.connected(c, x);
    assert(b.closed_under(g)) by {
        assert forall|x: Cell, y: Cell| #[trigger]
            g(x) && b.active(y) && #[trigger] adjacent(x, y) implies g(y) by {
            lemma_connected(b, c, x, y);
        }
    }
    let h = |x: Cell| b.connected(r, x);
    assert(b.closed_under(h)) by {
        assert forall|x: Cell, y: Cell| #[trigger]
            h(x) && b.active(y) && #[trigger] adjacent(x, y) implies h(y) by {
            lemma_connected(b, r, x, y);
        }
    }
    assert forall|d: Cell| b.connected(r, d) <==> b.connected(c, d) by {
        if b.connected(r, d) {
            let p = choose|p: Seq<Cell>| #[trigger] b.is_path(p) && p[0] == r && p.last() == d;
            assert(g(p[0]));
            lemma_path_within(b, g, p, 0, p.len() - 1);
        }
        if b.connected(c, d) {
            let p = choose|p: Seq<Cell>| #[trigger] b.is_path(p) && p[0] == c && p.last() == d;
            assert(b.connected(r, c));
            assert(h(p[0]));
            lemma_path_within(b, h, p, 0, p.len() - 1);
        }
    }
    assert forall|d: Cell| #[trigger] b.connected(r, d) implies !before(d, r) by {
        assert(l.contains(d));
        let k = choose|k: int| 0 <= k < l.len() && l[k] == d;
        assert(!before(l[k], l[i]));
    }
    r
}

/// Two lists of the cells of one block have the same shape.
pub proof fn lemma_same_block_same_shape(b: Board, c: Cell, d: Cell, x: Seq<Cell>, y: Seq<Cell>)
    requires
        b.lists_block(c, x),
        b.lists_block(d, y),
        forall|e: Cell| b.connected(c, e) <==> b.connected(d, e),
    ensures
        invariant_of(x) == invariant_of(y),
{
    broadcast use vstd::multiset::group_multiset_axioms;

    x.lemma_multiset_has_no_duplicates();
    y.lemma_multiset_has_no_duplicates();
    assert forall|e: Cell| x.to_multiset().count(e) == y.to_multiset().count(e) by {
        to_multiset_contains(x, e);
        to_multiset_contains(y, e);
    }
    assert(x.to_multiset() =~= y.to_multiset());
    lemma_invariant_same_points(x, y);
}

/// The propagator finds something if and only if two closed blocks of the
/// board break the rule.
pub proof fn lemma_found_iff_breaks(
    s: ShapesState,
    blocks: Seq<Seq<Cell>>,
    pair: Option<(int, int)>,
    found: Option<Seq<(int, bool)>>,
)
    requires
        s.finds(blocks, pair, found),
    ensures
        found is Some <==> breaks(s.board, s.kind),
{
    let b = s.board;
    let shapes = shapes_of(blocks);
    if found is Some {
        let (i, j) = pair->Some_0;
        let x = blocks[i];
        let y = blocks[j];
        assert(shapes[i] == invariant_of(x) && shapes[j] == invariant_of(y));
        if b.connected(x[0], y[0]) {
            lemma_connected(b, x[0], y[0], y[0]);
            if i < j {
                assert(before(blocks[i][0], blocks[j][0]));
            } else {
                assert(before(blocks[j][0], blocks[i][0]));
            }
            assert(false);
        }
        assert(b.lists_block(x[0], x) && b.lists_block(y[0], y));
    }
    if breaks(b, s.kind) {
        let (x, y) = choose|x: Seq<Cell>, y: Seq<Cell>| #[trigger]
            b.lists_block(x[0], x) && #[trigger] b.lists_block(y[0], y) && b.closed(x[0])
                && b.closed(y[0]) && match s.kind {
                ConstraintType::AllDifferent => !b.connected(x[0], y[0]) && invariant_of(x)
                    == invariant_of(y),
                ConstraintType::AllEqual => invariant_of(x) != invariant_of(y),
            };
        let rx = lemma_block_has_first(b, x[0], x);
        let ry = lemma_block_has_first(b, y[0], y);
        lemma_connected(b, x[0], rx, rx);
        lemma_connected(b, y[0], ry, ry);
        assert(b.inside(rx) && b.inside(ry));
        assert(before(rx, (b.height, 0int)) && before(ry, (b.height, 0int)));
        let i = choose|i: int| 0 <= i < blocks.len() && (#[trigger] blocks[i])[0] == rx;
        let j = choose|j: int| 0 <= j < blocks.len() && (#[trigger] blocks[j])[0] == ry;
        lemma_same_block_same_shape(b, rx, x[0], blocks[i], x);
        lemma_same_block_same_shape(b, ry, y[0], blocks[j], y);
        assert(shapes[i] == invariant_of(x) && shapes[j] == invariant_of(y));
        match s.kind {
            ConstraintType::AllDifferent => {
                if i == j {
                    assert(b.connected(rx, y[0]));
                    assert(b.connected(x[0], y[0]));
                }
                if pair is None {
                    if j < i {
                        assert(shapes[i] != shapes[j]);
                    } else {
                        assert(shapes[j] != shapes[i]);
                    }
                }
            },
            ConstraintType::AllEqual => {
                if pair is None {
                    assert(shapes[i] == shapes[0]);
                    assert(shapes[j] == shapes[0]);
                }
            },
        }
    }
}

/// A decision that is told of an undecided cell and then taken back leaves
/// the state as it was.
pub proof fn lemma_notify_undo(s: ShapesState, index: int, value: bool)
    requires
        s.board.wf(),
        0 <= index < s.board.height * s.board.width,
        s.board.at((index / s.board.width, index % s.board.width)) == ShapeCell::Undecided,
    ensures
        s.notify(index, value).undo() == s,
{
    let w = s.board.width;
    let h = s.board.height;
    assert(w > 0) by (nonlinear_arith)
        requires
            0 <= index < h * w,
            h >= 0,
            w >= 0,
    ;
    let c = (index / w, index % w);
    assert(c.0 < h) by (nonlinear_arith)
        requires
            0 <= index < h * w,
            w > 0,
            c.0 == index / w,
    ;
    let t = s.notify(index, value);
    assert(t.stack.last() == c);
    assert(t.stack.drop_last() =~= s.stack);
    let u = t.undo();
    assert(u.board.cells =~= s.board.cells) by {
        assert(s.board.cells[c.0].len() == w);
        assert forall|i: int| 0 <= i < h implies #[trigger] u.board.cells[i] =~= s.board.cells[i] by {}
    }
}

} // verus!

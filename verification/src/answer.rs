//! What a constraint solver says of the program of a session, and the
//! colours that are read from it.

use crate::puzzle::{grid_of, is_grid, Color};
use crate::solver::LogicPadSolver;
use vstd::prelude::*;

verus! {

/// What is asked of the constraint solver.
#[derive(Debug, Clone, Copy, PartialEq, Eq, Structural)]
pub enum Query {
    /// One assignment that meets the program.
    Model,
    /// For each variable, the value that it has in every assignment that
    /// meets the program, if there is such a value.
    Facts,
}

/// What the constraint solver said.
#[derive(Debug, Clone, PartialEq, Eq)]
pub enum Answer {
    /// No assignment meets the program.
    Unsat,
    /// The values of the two colour grids in one assignment that meets the
    /// program.
    Model { is_white: Vec<Vec<bool>>, is_black: Vec<Vec<bool>> },
    /// The values of the two colour grids that every assignment that meets
    /// the program has: `Some` where all agree, `None` where they do not.
    Facts { is_white: Vec<Vec<Option<bool>>>, is_black: Vec<Vec<Option<bool>>> },
}

/// The query for a kind of solve: the facts where the puzzle may have
/// several solutions, one model else.
pub open spec fn query_for(underclued: bool) -> Query {
    if underclued {
        Query::Facts
    } else {
        Query::Model
    }
}

/// The colour of a cell in a model: white if its white variable alone is
/// true, black if its black variable alone is true, none else.
pub open spec fn model_color(white: bool, black: bool) -> Option<Color> {
    if white && !black {
        Some(Color::White)
    } else if !white && black {
        Some(Color::Black)
    } else {
        None
    }
}

/// The colour of a cell by the facts: white if its white variable is known
/// to be true and its black variable to be false, black if it is the other
/// way round, none else.
pub open spec fn fact_color(white: Option<bool>, black: Option<bool>) -> Option<Color> {
    if white == Some(true) && black == Some(false) {
        Some(Color::White)
    } else if white == Some(false) && black == Some(true) {
        Some(Color::Black)
    } else {
        None
    }
}

/// The colours of the cells of a board in a model.
pub open spec fn model_colors(
    is_white: Seq<Seq<bool>>,
    is_black: Seq<Seq<bool>>,
    height: int,
    width: int,
) -> Seq<Seq<Option<Color>>> {
    Seq::new(
        height as nat,
        |y: int| Seq::new(width as nat, |x: int| model_color(is_white[y][x], is_black[y][x])),
    )
}

/// The colours of the cells of a board by the facts.
pub open spec fn fact_colors(
    is_white: Seq<Seq<Option<bool>>>,
    is_black: Seq<Seq<Option<bool>>>,
    height: int,
    width: int,
) -> Seq<Seq<Option<Color>>> {
    Seq::new(
        height as nat,
        |y: int| Seq::new(width as nat, |x: int| fact_color(is_white[y][x], is_black[y][x])),
    )
}

/// By the facts a cell has a colour if and only if both its variables are
/// known and have different values; the colour is then the one whose
/// variable is true. In a model a cell has a colour if and only if its two
/// variables have different values.
pub proof fn lemma_colors(white: Option<bool>, black: Option<bool>, w: bool, b: bool)
    ensures
        fact_color(white, black) is Some <==> white is Some && black is Some && white->Some_0
            != black->Some_0,
        fact_color(white, black) == Some(Color::White) <==> white == Some(true) && black == Some(
            false,
        ),
        fact_color(white, black) == Some(Color::Black) <==> white == Some(false) && black == Some(
            true,
        ),
        fact_color(white, black) != Some(Color::Undecided),
        model_color(w, b) is Some <==> w != b,
        model_color(w, b) == fact_color(Some(w), Some(b)),
{
}

impl Answer {
    /// The answer is for a board of `height` rows and `width` columns.
    pub open spec fn fits(&self, height: int, width: int) -> bool {
        match self {
            Answer::Unsat => true,
            Answer::Model { is_white, is_black } => is_grid(grid_of(is_white@), height, width)
                && is_grid(grid_of(is_black@), height, width),
            Answer::Facts { is_white, is_black } => is_grid(grid_of(is_white@), height, width)
                && is_grid(grid_of(is_black@), height, width),
        }
    }

    /// The colours that are read from the answer; nothing if no assignment
    /// meets the program.
    pub open spec fn colors(&self, height: int, width: int) -> Option<Seq<Seq<Option<Color>>>> {
        match self {
            Answer::Unsat => None,
            Answer::Model { is_white, is_black } => Some(
                model_colors(grid_of(is_white@), grid_of(is_black@), height, width),
            ),
            Answer::Facts { is_white, is_black } => Some(
                fact_colors(grid_of(is_white@), grid_of(is_black@), height, width),
            ),
        }
    }

    /// Whether the answer is for a board of `height` rows and `width`
    /// columns.
    pub fn check_fits(&self, height: usize, width: usize) -> (r: bool)
        ensures
            r == self.fits(height as int, width as int),
    {
        match self {
            Answer::Unsat => true,
            Answer::Model { is_white, is_black } => has_size(is_white, height, width) && has_size(
                is_black,
                height,
                width,
            ),
            Answer::Facts { is_white, is_black } => has_size(is_white, height, width) && has_size(
                is_black,
                height,
                width,
            ),
        }
    }
}

/// Whether a vector of vectors has `height` rows of `width` entries.
pub fn has_size<T>(rows: &Vec<Vec<T>>, height: usize, width: usize) -> (r: bool)
    ensures
        r == is_grid(grid_of(rows@), height as int, width as int),
{
    if rows.len() != height {
        return false;
    }
    for y in 0..height
        invariant
            rows@.len() == height,
            forall|i: int| 0 <= i < y ==> (#[trigger] grid_of(rows@)[i]).len() == width,
    {
        if rows[y].len() != width {
            assert(grid_of(rows@)[y as int].len() != width);
            return false;
        }
    }
    true
}

/// The query for a kind of solve.
pub fn query(underclued: bool) -> (r: Query)
    ensures
        r == query_for(underclued),
{
    if underclued {
        Query::Facts
    } else {
        Query::Model
    }
}

/// The colours of a solution, row by row.
pub open spec fn solution_of(r: Option<Vec<Vec<Option<Color>>>>) -> Option<
    Seq<Seq<Option<Color>>>,
> {
    match r {
        Some(rows) => Some(grid_of(rows@)),
        None => None,
    }
}

impl LogicPadSolver {
    /// Reads the colours of the cells from the answer of the constraint
    /// solver: nothing if no assignment meets the program; else for each
    /// cell its colour, or `None` where the answer gives it none.
    pub fn solve(&self, answer: &Answer) -> (r: Option<Vec<Vec<Option<Color>>>>)
        requires
            answer.fits(self@.height, self@.width),
        ensures
            solution_of(r) == answer.colors(self@.height, self@.width),
    {
        let height = self.height();
        let width = self.width();
        match answer {
            Answer::Unsat => None,
            Answer::Model { is_white, is_black } => {
                let ghost target = model_colors(
                    grid_of(is_white@),
                    grid_of(is_black@),
                    height as int,
                    width as int,
                );
                let mut result: Vec<Vec<Option<Color>>> = Vec::new();
                for y in 0..height
                    invariant
                        is_grid(grid_of(is_white@), height as int, width as int),
                        is_grid(grid_of(is_black@), height as int, width as int),
                        target == model_colors(
                            grid_of(is_white@),
                            grid_of(is_black@),
                            height as int,
                            width as int,
                        ),
                        result@.len() == y,
                        forall|i: int| 0 <= i < y ==> (#[trigger] result@[i])@ == target[i],
                {
                    let mut row: Vec<Option<Color>> = Vec::new();
                    assert(grid_of(is_white@)[y as int].len() == width);
                    assert(grid_of(is_black@)[y as int].len() == width);
                    for x in 0..width
                        invariant
                            y < height,
                            is_white@.len() == height,
                            is_black@.len() == height,
                            is_white@[y as int]@.len() == width,
                            is_black@[y as int]@.len() == width,
                            target == model_colors(
                                grid_of(is_white@),
                                grid_of(is_black@),
                                height as int,
                                width as int,
                            ),
                            row@.len() == x,
                            forall|j: int| 0 <= j < x ==> #[trigger] row@[j] == target[y as int][j],
                    {
                        let w = is_white[y][x];
                        let b = is_black[y][x];
                        let c = if w && !b {
                            Some(Color::White)
                        } else if !w && b {
                            Some(Color::Black)
                        } else {
                            None
                        };
                        row.push(c);
                    }
                    assert(row@ =~= target[y as int]);
                    result.push(row);
                }
                assert(grid_of(result@) =~= target);
                Some(result)
            },
            Answer::Facts { is_white, is_black } => {
                let ghost target = fact_colors(
                    grid_of(is_white@),
                    grid_of(is_black@),
                    height as int,
                    width as int,
                );
                let mut result: Vec<Vec<Option<Color>>> = Vec::new();
                for y in 0..height
                    invariant
                        is_grid(grid_of(is_white@), height as int, width as int),
                        is_grid(grid_of(is_black@), height as int, width as int),
                        target == fact_colors(
                            grid_of(is_white@),
                            grid_of(is_black@),
                            height as int,
                            width as int,
                        ),
                        result@.len() == y,
                        forall|i: int| 0 <= i < y ==> (#[trigger] result@[i])@ == target[i],
                {
                    let mut row: Vec<Option<Color>> = Vec::new();
                    assert(grid_of(is_white@)[y as int].len() == width);
                    assert(grid_of(is_black@)[y as int].len() == width);
                    for x in 0..width
                        invariant
                            y < height,
                            is_white@.len() == height,
                            is_black@.len() == height,
                            is_white@[y as int]@.len() == width,
                            is_black@[y as int]@.len() == width,
                            target == fact_colors(
                                grid_of(is_white@),
                                grid_of(is_black@),
                                height as int,
                                width as int,
                            ),
                            row@.len() == x,
                            forall|j: int| 0 <= j < x ==> #[trigger] row@[j] == target[y as int][j],
                    {
                        let c = match (is_white[y][x], is_black[y][x]) {
                            (Some(true), Some(false)) => Some(Color::White),
                            (Some(false), Some(true)) => Some(Color::Black),
                            _ => None,
                        };
                        row.push(c);
                    }
                    assert(row@ =~= target[y as int]);
                    result.push(row);
                }
                assert(grid_of(result@) =~= target);
                Some(result)
            },
        }
    }
}

} // verus!

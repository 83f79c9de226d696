//! The puzzle as a caller states it: a board of tiles, the pairs of cells that
//! are tied together, and the rules that a colouring has to meet.

use vstd::prelude::*;

verus! {

/// The colour of a cell. `Undecided` (gray) may stand in an input tile or in a
/// pattern, never in a solved cell.
#[derive(Debug, Clone, Copy, PartialEq, Eq, Structural, PartialOrd, Ord)]
pub enum Color {
    Undecided,
    White,
    Black,
}

impl Color {
    /// The place of the colour in the order gray, light, dark, by which
    /// patterns are compared.
    pub open spec fn rank(self) -> int {
        match self {
            Color::Undecided => 0,
            Color::White => 1,
            Color::Black => 2,
        }
    }

    /// The place of the colour in the order gray, light, dark.
    pub fn rank_of(self) -> (r: u8)
        ensures
            r == self.rank(),
    {
        match self {
            Color::Undecided => 0,
            Color::White => 1,
            Color::Black => 2,
        }
    }
}

/// One of the eight directions in which a dart points or a lotus lies.
#[derive(Debug, Clone, Copy, PartialEq, Eq, Structural, PartialOrd, Ord)]
pub enum Orientation {
    Left,
    Right,
    Up,
    Down,
    UpRight,
    UpLeft,
    DownRight,
    DownLeft,
}

/// A tile of the board or of a forbidden pattern.
#[derive(Debug, Clone, Copy, PartialEq, Eq, Structural)]
pub struct Tile {
    pub exists: bool,
    pub fixed: bool,
    pub color: Color,
}

/// A clue that counts the cells of the other colour around its cell.
#[derive(Debug, Clone, Copy, PartialEq, Eq, Structural)]
pub struct MinesweeperTile {
    pub y: usize,
    pub x: usize,
    pub number: i32,
}

/// A clue that gives the size of the region its cell lies in.
#[derive(Debug, Clone, Copy, PartialEq, Eq, Structural)]
pub struct AreaNumberTile {
    pub y: usize,
    pub x: usize,
    pub number: i32,
}

/// A letter on a cell; cells with the same letter share a region.
#[derive(Debug, Clone, PartialEq, Eq)]
pub struct LetterTile {
    pub y: usize,
    pub x: usize,
    pub letter: String,
}

/// A clue that counts the cells of the other colour along a ray.
#[derive(Debug, Clone, Copy, PartialEq, Eq, Structural)]
pub struct DartTile {
    pub y: usize,
    pub x: usize,
    pub orientation: Orientation,
    pub number: i32,
}

/// A clue that counts the cells of its own colour seen from its cell.
#[derive(Debug, Clone, Copy, PartialEq, Eq, Structural)]
pub struct ViewpointTile {
    pub y: usize,
    pub x: usize,
    pub number: i32,
}

/// The centre of a mirror-symmetric region, in half-cell coordinates.
#[derive(Debug, Clone, Copy, PartialEq, Eq, Structural)]
pub struct LotusTile {
    pub y: usize,
    pub x: usize,
    pub orientation: Orientation,
}

/// The centre of a point-symmetric region, in half-cell coordinates.
#[derive(Debug, Clone, Copy, PartialEq, Eq, Structural)]
pub struct GalaxyTile {
    pub y: usize,
    pub x: usize,
}

/// A rule of the puzzle.
#[derive(Debug, Clone, PartialEq, Eq)]
pub enum Rule {
    ConnectAll { color: Color },
    ForbiddenPattern { pattern: Vec<Vec<Tile>> },
    Minesweeper { tiles: Vec<MinesweeperTile> },
    AreaNumber { tiles: Vec<AreaNumberTile> },
    Letter { tiles: Vec<LetterTile> },
    Dart { tiles: Vec<DartTile> },
    Viewpoint { tiles: Vec<ViewpointTile> },
    Lotus { tiles: Vec<LotusTile> },
    Galaxy { tiles: Vec<GalaxyTile> },
    SameShape { color: Color },
    UniqueShape { color: Color },
    RegionArea { color: Color, size: i32 },
    CellCount { color: Color, count: i32 },
    OffByX { number: i32 },
}

/// Two cells that must have the same colour.
#[derive(Debug, Clone, Copy, PartialEq, Eq, Structural)]
pub struct Connection {
    pub y1: usize,
    pub x1: usize,
    pub y2: usize,
    pub x2: usize,
}

/// A puzzle: a board of `height` rows of `width` tiles, with its connections
/// and rules.
#[derive(Debug, Clone, PartialEq, Eq)]
pub struct Puzzle {
    pub width: usize,
    pub height: usize,
    pub tiles: Vec<Vec<Tile>>,
    pub rules: Vec<Rule>,
    pub connections: Vec<Connection>,
}

/// The rows of a vector of vectors, each as a sequence.
pub open spec fn grid_of<T>(rows: Seq<Vec<T>>) -> Seq<Seq<T>> {
    Seq::new(rows.len(), |y: int| rows[y]@)
}

/// `rows` is a grid of `height` rows with `width` entries each.
pub open spec fn is_grid<T>(rows: Seq<Seq<T>>, height: int, width: int) -> bool {
    &&& rows.len() == height
    &&& forall|y: int| 0 <= y < height ==> (#[trigger] rows[y]).len() == width
}

} // verus!

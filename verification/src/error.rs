//! The reasons for which a puzzle is refused.

use vstd::prelude::*;

verus! {

/// Why a puzzle was refused.
#[derive(Debug, Clone, Copy, PartialEq, Eq, Structural)]
pub enum SolveError {
    GrayTileFixed,
    ConnectAllGray,
    EmptyForbiddenPattern,
    MultipleOffByX,
    OffByXNotPositive,
    DuplicateAreaNumber,
    MultipleAreaNumberRules,
    MultipleLightAreaSizeRules,
    MultipleDarkAreaSizeRules,
    MinesweeperOnMissingTile,
    LetterOnMissingTile,
    DartOnMissingTile,
    ViewpointOnMissingTile,
    LotusInvalidPosition,
    LotusOutOfBounds,
    GalaxyOnCorner,
}

impl SolveError {
    /// The message of the error, as a caller shows it.
    pub fn message(&self) -> (r: &'static str)
        ensures
            r@ == self.spec_message(),
    {
        match self {
            SolveError::GrayTileFixed => "gray tile is fixed",
            SolveError::ConnectAllGray => "connectAll with gray color",
            SolveError::EmptyForbiddenPattern => "empty forbidden pattern",
            SolveError::MultipleOffByX => "multiple offByX rules",
            SolveError::OffByXNotPositive => "offByX with non-positive number",
            SolveError::DuplicateAreaNumber => "duplicate area number",
            SolveError::MultipleAreaNumberRules => "multiple area number rules",
            SolveError::MultipleLightAreaSizeRules => "multiple light area size rules",
            SolveError::MultipleDarkAreaSizeRules => "multiple dark area size rules",
            SolveError::MinesweeperOnMissingTile => {
                "minesweeper tile on non-existing tile"
            },
            SolveError::LetterOnMissingTile => "letter tile on non-existing tile",
            SolveError::DartOnMissingTile => "dart tile on non-existing tile",
            SolveError::ViewpointOnMissingTile => {
                "viewpoint tile on non-existing tile"
            },
            SolveError::LotusInvalidPosition => "lotus on invalid position",
            SolveError::LotusOutOfBounds => "lotus out of bounds",
            SolveError::GalaxyOnCorner => "galaxies on corners may cause unexpected behavior",
        }
    }

    /// The message of the error.
    pub open spec fn spec_message(&self) -> Seq<char> {
        match self {
            SolveError::GrayTileFixed => "gray tile is fixed"@,
            SolveError::ConnectAllGray => "connectAll with gray color"@,
            SolveError::EmptyForbiddenPattern => "empty forbidden pattern"@,
            SolveError::MultipleOffByX => "multiple offByX rules"@,
            SolveError::OffByXNotPositive => "offByX with non-positive number"@,
            SolveError::DuplicateAreaNumber => "duplicate area number"@,
            SolveError::MultipleAreaNumberRules => "multiple area number rules"@,
            SolveError::MultipleLightAreaSizeRules => "multiple light area size rules"@,
            SolveError::MultipleDarkAreaSizeRules => "multiple dark area size rules"@,
            SolveError::MinesweeperOnMissingTile => {
                "minesweeper tile on non-existing tile"@
            },
            SolveError::LetterOnMissingTile => "letter tile on non-existing tile"@,
            SolveError::DartOnMissingTile => "dart tile on non-existing tile"@,
            SolveError::ViewpointOnMissingTile => {
                "viewpoint tile on non-existing tile"@
            },
            SolveError::LotusInvalidPosition => "lotus on invalid position"@,
            SolveError::LotusOutOfBounds => "lotus out of bounds"@,
            SolveError::GalaxyOnCorner => "galaxies on corners may cause unexpected behavior"@,
        }
    }
}

} // verus!

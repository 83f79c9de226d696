//! A compiler from two-colour grid puzzles to programs for a constraint
//! solver, with the propagator that tells the shapes of blocks apart, and
//! the reading of the solver's answer back into colours.
//!
//! A caller goes three steps. `compile::solve` takes the puzzle and writes
//! the program of a session, or refuses the puzzle; it also says whether
//! one model or the facts are to be asked. The caller runs a constraint
//! solver on the commands of the session, with `shapes::ShapesConstraint`
//! as the propagator where a command asks for it. `LogicPadSolver::solve`
//! then reads the colours from what the solver said.
//!
//! `puzzle` holds the puzzle as a caller states it, and `expr` the language
//! of the programs. `encoding` says what each rule posts, `solver` writes
//! it, and `compile` walks over the rules of a puzzle. `answer` reads
//! colours from what the solver said. `patterns` and `polyomino` hold the
//! symmetries of colour patterns and of shapes, `shapes` the propagator,
//! `letters` the order of letters, `seqs` sequences built piece by piece,
//! `error` the reasons for which a puzzle is refused, and `laws` what holds
//! of the programs.

pub mod answer;
pub mod compile;
pub mod encoding;
pub mod error;
pub mod expr;
pub mod laws;
pub mod letters;
pub mod patterns;
pub mod polyomino;
pub mod puzzle;
pub mod seqs;
pub mod shapes;
pub mod solver;

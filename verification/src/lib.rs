//! Setup pipeline for Kakuro puzzles.
//!
//! A puzzle text is parsed into a grid of blocked, clue and fillable
//! positions, the runs and cells found there are linked into a constraint
//! graph, every run receives its admissible digit combinations from a
//! combination table, and every cell receives the digits that both of its
//! runs still allow. Solving the puzzle is left to the caller.
//!
//! - [`text`]: lines, tokens and run signatures in the bytes of a text
//! - [`model`]: grid positions, runs, cells, faults, and their views
//! - [`grid`]: reading a puzzle text
//! - [`graph`]: linking runs and cells
//! - [`siblings`]: the other cells of the runs of a cell
//! - [`table`]: the combination table
//! - [`derive`]: combinations of runs, siblings and candidates of cells
//! - [`setup`]: the whole pipeline, and what holds of its result

pub mod derive;
pub mod graph;
pub mod grid;
pub mod model;
pub mod setup;
pub mod siblings;
pub mod table;
pub mod text;

//! A verified Nonogram (picross) solver.
//!
//! A puzzle is a grid of tri-state cells (`None` = unknown, `Some(true)` =
//! filled, `Some(false)` = empty) together with one clue per row and per
//! column: the ordered lengths of the contiguous filled runs in that line.
//! The solver repeatedly resolves single lines: it enumerates every way the
//! clue's runs can be placed that is consistent with the cells already known,
//! commits each cell that every placement fills (or that no placement fills),
//! and propagates newly decided cells to the crossing lines until no further
//! progress is possible.

pub mod comps;
pub mod laws;
pub mod model;
pub mod solver;

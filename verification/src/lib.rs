//! A wave-function-collapse solver over a two-dimensional grid of pattern
//! identifiers, with every operation carrying a machine-checked contract.
//!
//! Given a grid, a vocabulary of patterns and, for every pattern and
//! direction, the patterns that may stand next to it, the solver keeps for
//! every cell the set of patterns that are still candidates (the *wave*).
//! One iteration collapses a cell to one of its candidates and propagates
//! the consequences through per-cell compatibility counts; a contradiction
//! rewinds the solver to a snapshot, or fails where none is held.
//!
//! The solver holds no real numbers and draws no random numbers. Its host
//! scores the uncollapsed cells, lets [`WFCModel::find_observe_target`] pick
//! the cell with the lowest score, draws one of the candidates of that cell
//! and hands both to [`WFCModel::single_iteration_with_snapshots`]. Every ban
//! is logged in order ([`WFCModel::take_ban_log`]), so that the host can keep
//! weight sums and entropies in step with the wave.
//!
//! What is proved of every well-formed solver:
//! - the count of a cell is the number of its candidates, and the observed
//!   pattern of a cell with one candidate is that candidate;
//! - under consistent rules, every compatibility count is the number of
//!   patterns of the neighbour that support its pattern;
//! - bans made by propagation never take away a pattern that a consistent
//!   filling of the grid could use, and as long as no revert intervenes the
//!   wave after a step is arc consistent;
//! - clearing a solver gives the state in which it was built, and a revert
//!   gives the state that its snapshot recorded, without the pattern that
//!   was tried.
//!
//! The module [`laws`] states these for callers.

pub mod bits;
pub mod cell;
pub mod cell_collapsed_collection;
pub mod cell_collection;
pub mod compatible;
pub mod direction;
pub mod dirty_cells;
pub mod entropy_tracker;
pub mod forcing;
pub mod grid;
pub mod iteration;
pub mod laws;
pub mod pattern_bitset;
pub mod pattern_collection;
pub mod propagation;
pub mod propagator;
pub mod snapshots;
pub mod support;
pub mod wave;
pub mod wfc_model;

pub use wfc_model::IterationResult;
pub use wfc_model::WFCModel;

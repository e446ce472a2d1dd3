//! A 9x9 Sudoku constraint-propagation engine and a brute-force solver.
//!
//! The heart of the crate is the propagation engine in [`engine`]: a grid of
//! per-cell candidate sets ([`cand::Possible`]) together with the board
//! topology (units and peers, built in [`topo`]) and two mutually recursive
//! operations, `assign` and `eliminate`, that narrow candidate sets to
//! closure under the naked-single and hidden-single rules.  A plain
//! backtracking solver over a flat digit grid lives in [`search`].

pub mod cand;
pub mod engine;
pub mod search;
pub mod topo;

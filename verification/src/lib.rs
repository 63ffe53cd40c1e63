//! Word-search puzzle engine: a rectangular character grid, the eight compass
//! directions, and a search that reports where a word first appears together
//! with the number of character comparisons spent finding it.
//!
//! `types` holds the grid, directions and display colors; `io` parses puzzle
//! text into a grid and word list; `solver` is the search engine itself,
//! specified by `solver::search_spec` and proved to return exactly that.

pub mod io;
pub mod solver;
pub mod types;

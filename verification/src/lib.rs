//! Exact cover with multiplicities, solved by dancing links.
//!
//! A problem is a set of items, each with a range `[min, max]`, and a list of
//! named options, each a set of items. A solution picks options so that every
//! item is covered a number of times within its range.
//!
//! [`dlx`] holds the sparse matrix and the search, [`problem`] the problem
//! model, [`solver`] the way from a problem to its matrix and the rules of the
//! signal protocol that a background worker follows. [`problems`] holds
//! polyomino packing as an exact cover problem, over the vectors of
//! [`vector`].

pub mod vector;
pub mod dlx;
pub mod problem;
pub mod solver;
pub mod problems;

//! Problems that are modelled as exact cover problems.

pub mod polyomino;

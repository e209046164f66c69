//! The dancing-links matrix, its model and the search over it.

pub mod grid;
pub mod links;
pub mod rows;
pub mod columns;
pub mod choice;
pub mod search;
pub mod layout;
pub mod laws;
pub mod complete;
pub mod once;
pub mod stack;
pub mod callback;
pub mod dlx_m;

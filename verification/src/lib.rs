//! A solver for letter-grid word puzzles: choose the fewest dictionary words
//! that together use every allowed letter of every column.

pub mod collections;
pub mod cover;
pub mod format;
pub mod index;
pub mod order;
pub mod partial;
pub mod puzzle;
pub mod ranking;
pub mod search;
pub mod solver;

pub use crate::collections::{LetterCounts, LetterSet};
pub use crate::index::{
    create_dict, create_index, dict_with_counts, load_dictionary, load_dictionary_between,
    load_index,
};
pub use crate::puzzle::{SolverError, Typeshift};
pub use crate::search::SolveMode;

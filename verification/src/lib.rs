//! Task-directory scaffolding library.
//!
//! Task directories live side by side under a parent directory and carry a
//! three-digit ordinal prefix (`000_report`, `001_analysis`, ...).  This crate
//! holds the logic of that convention: parsing and regenerating ordinal
//! prefixes, computing the next free ordinal, renumbering an existing set of
//! sibling directories into a contiguous sequence, a safe model of the
//! template tree copy, and lexical path resolution.  All filesystem access and
//! console interaction stay with the caller.

pub mod create;
pub mod fstree;
pub mod ordinal;
pub mod paths;
pub mod renumber;

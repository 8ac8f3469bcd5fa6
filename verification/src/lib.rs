//! An interactive shell-history picker: load a shell history file, filter it
//! by case-insensitive substring as the user types, navigate the filtered
//! list, and hand the chosen command text back for re-execution.
//!
//! The crate holds the verified core: history normalization and
//! deduplication, the filter/selection state machine, and the command
//! tokenizer. Terminal rendering, raw key capture and the final process
//! replacement are left to an unverified front end.

pub mod engine;
pub mod history;
pub mod launcher;
pub mod text;

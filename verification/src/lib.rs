//! Positional-ordering core of a kanban board.
//!
//! Every orderable collection on the board — the activities inside a column
//! (or the stash), the categories of the board, the tags inside a category
//! (or the uncategorized bucket) — is kept as a dense, gap-free, zero-based
//! sequence of positions ("ordinals").  The [`store`] module holds the
//! ordinal manager that maintains this invariant across inserts, deletes
//! and moves; [`board`] instantiates it for the three domains and adds the
//! activity–tag links; [`laws`] states and proves the ordering laws;
//! [`coloring`] holds the tag color utilities; [`commands`] holds the plain
//! request and response records of the command layer; [`errors`] the error
//! taxonomy.

pub mod board;
pub mod coloring;
pub mod commands;
pub mod errors;
pub mod laws;
pub mod store;

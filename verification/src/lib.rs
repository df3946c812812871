//! Inventory and clean-up of the git worktrees on one machine: the rules that
//! decide what is listed, in which order, what may be deleted, and what the
//! terminal interface does with each key.

pub mod calendar;
pub mod cli;
pub mod order;
pub mod paths;
pub mod remove;
pub mod scan;
pub mod text;
pub mod timeutil;
pub mod ui;

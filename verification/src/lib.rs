//! Keeps a git working tree committed on a schedule.
//!
//! The library holds the decisions of the tool and none of its outside
//! work. `text` reads tokens and lines. `entry` is one job of the
//! scheduler's table, and `registry` the jobs of this tool in that table.
//! `changes` decides what is uncommitted, `message` makes the commit
//! message, and `pipeline` is one run from the status of the working tree
//! to the push. `error` names what can go wrong.
//!
//! Each module states what its functions compute as functions over
//! mathematical values, and proves its functions and its laws against
//! them.

pub mod changes;
pub mod entry;
pub mod error;
pub mod message;
pub mod pipeline;
pub mod registry;
pub mod text;

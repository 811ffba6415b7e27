//! Environment-alias registry: named activation commands, the hand-off of a
//! chosen command to the invoking shell, and the decisions of the interactive
//! picker and of the command dispatch.

pub mod alias;
pub mod store;
pub mod outcome;
pub mod handoff;
pub mod picker;
pub mod router;
pub mod codec;

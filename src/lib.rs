//! Process-tree tracing engine and tree-view renderer.
//!
//! The library holds the decision logic of a process tracer (which node to
//! create or link for each stop notification) and a renderer that linearises
//! an ordered tree into prefixed, scrollable lines. The system calls, the
//! terminal and the command line live in the application around it.

pub mod process;
pub mod race;
pub mod tree;
pub mod tui;
pub mod util;

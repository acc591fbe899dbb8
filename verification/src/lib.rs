//! A file-based task tracker: tasks, their dependency graph, and the rules
//! that decide what is ready, what is urgent and what may be linked.

mod text;
pub mod order;
pub mod error;
pub mod frontmatter;
pub mod task;
pub mod taskmap;
pub mod graph;
pub mod store;
pub mod config;
pub mod service;
pub mod editor;
pub mod tui;
pub mod widgets;
pub mod scaffold;
pub mod mcp;
pub mod command;

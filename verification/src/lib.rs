//! oby: the logic of a live, per-agent activity feed for a coding agent's
//! CLI.
//!
//! The crate holds the shell-command scanner and rewriter that inject
//! `oby-tee` sinks, the capturers that render hook payloads into feed
//! entries, the per-agent ring buffers and the feed view's navigation.
//! Everything here is pure computation; sockets, terminals and processes
//! live in the binary around it.
pub mod capturers;
pub mod clock;
pub mod composer;
pub mod entry;
pub mod env_gate;
pub mod hook;
pub mod install;
pub mod key;
pub mod metrics;
pub mod pre_filter;
pub mod probe;
pub mod registry;
pub mod rewrite;
pub mod ring;
pub mod scanner;
pub mod shell;
pub mod tee;
pub mod text;
pub mod tui;
pub mod wire;

//! Decision logic of a local copy/move/sync utility and of a directory tree
//! renderer, with contracts on every function.

pub mod text;
pub mod domain;
pub mod policy;
pub mod remote;
pub mod paths;
pub mod names;
pub mod table;
pub mod order;
pub mod changes;
pub mod scanner;
pub mod prescan;
pub mod prescan_lite;
pub mod tree_git;
pub mod tree;
pub mod placement;
pub mod execution;
pub mod workload;
pub mod limiter;
pub mod transfer;
pub mod runtime;
pub mod command;
pub mod telemetry;
pub mod batch;
pub mod content;
pub mod rsync;
pub mod engine;
pub mod cleanup;
pub mod rename;
pub mod journal;
pub mod resolve;
pub mod summary;
pub mod preview;
pub mod change_tree;
pub mod level;
pub mod showall;
pub mod top;
pub mod progress;
pub mod eta;
pub mod aggregation;
pub mod scan;
pub mod listing;
pub mod reverse;
pub mod blocks;
pub mod app;

pub use crate::app::run;

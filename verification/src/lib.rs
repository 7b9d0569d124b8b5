//! Lintus: a linter whose rules are plain-language questions, answered by the
//! Jev model. This crate holds the logic: globs, the YAML 1.1 config loader,
//! config validation, which files and rules a run covers, the questions it
//! asks, what the answers come to, reports and their rendering, which API key
//! is used, and what git's output means. Reading files, running git and
//! talking to the API are the caller's.

pub mod cli;
pub mod config;
pub mod credentials;
pub mod error;
pub mod files;
pub mod format;
pub mod git;
pub mod glob;
pub mod jev;
pub mod order;
pub mod ordered;
pub mod paths;
pub mod progress;
pub mod report;
pub mod runner;
pub mod scalar;
pub mod text;
pub mod yaml;

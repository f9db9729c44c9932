//! Shell prompt segments: a truncated working directory and a git status line.
pub mod config;
pub mod text;
pub mod path;
pub mod parse;
pub mod git;
pub mod logger;
pub mod context;

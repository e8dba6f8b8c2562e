//! The decisions of a small interactive shell, as plain functions from values to values.

pub mod builtins;
pub mod command;
pub mod completer;
pub mod completions;
pub mod history;
pub mod jobs;
pub mod lexer;
pub mod lexer_laws;
pub mod line_laws;
pub mod number;
pub mod order;
pub mod paths;
pub mod pipeline;
pub mod redirect;
pub mod text;

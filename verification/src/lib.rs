//! The parsing, planning and formatting logic of a small interactive shell.

pub mod text;
pub mod number;
pub mod redirect;
pub mod arg_parser;
pub mod command;
pub mod common;
pub mod completion_specs;
pub mod shell_context;
pub mod job;
pub mod completion;

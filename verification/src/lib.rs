//! A small Unix shell: command-line tokenisers, operator splitting, alias and
//! variable expansion, built-in commands and the shell's state.
pub mod text;
pub mod varmap;
pub mod parsing;
pub mod input_parsing;
pub mod state;
pub mod builtin;
pub mod config;
pub mod commands;
pub mod interface;
pub mod input;

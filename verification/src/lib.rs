//! A small library for working with AWS-style credential profile files:
//! a verified parser for the `[profile name]` / `key = value` dialect,
//! ordered profile records, display labels for an interactive picker, and
//! shell activation commands.

pub mod config;
pub mod model;
pub mod shell;
pub mod text;
pub mod ui;

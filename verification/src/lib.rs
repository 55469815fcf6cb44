//! Declarative command-line flag parsing.
//!
//! A program declares its flags once, as a [`FlagTable`] of
//! [`FlagDescriptor`]s. From the table come both a dispatcher, which turns
//! argument tokens into matched rules and their parameter values, and the
//! help text.
//!
//! The dispatcher knows `--flag value`, `--flag=value`, clusters of short
//! flags (`-sw 80` for `-s -w 80`) and values attached to a short flag
//! (`-Wall` for `-W all`). It never fails: a missing value is handed on as
//! absent, and a token that no rule names goes to the catch-all rule.

pub mod docs;
pub mod formatters;
pub mod help;
pub mod laws;
pub mod parse;
pub mod table;
pub mod text;

pub use docs::{Flag, FlagDescriptor};
pub use formatters::simple_format;
pub use help::{add_doccoments, add_word, wrapping_format};
pub use parse::{parse, parse_with, Dispatch, FlagView, ParseSession};
pub use table::{ConfigError, FlagTable};

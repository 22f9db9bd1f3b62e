//! Chat-style command templates: a small pattern language compiled into a
//! matcher that extracts named captures from an input text.
//!
//! A template such as `.join <separator?: starts(`sep=`)> <words+>` is
//! compiled once into a [`Command`]; [`Command::get_matches`] then matches
//! an input against it and hands back the captures by name and the
//! unmatched rest.

mod args;
/// Syntactic elements of a [`Command`].
pub mod ast;
mod compiler;
mod engine;
/// The errors that compiling a template can give.
pub mod errors;
/// The template parser.
pub mod parser;
pub mod laws;
mod pattern;
mod regex_set;
mod text;

pub use args::{Args, ArgsView, Iter, Match, MatchView};
pub use compiler::{Command, Error};

//! Games in PTN: tags, a start position, and the moves with their annotations and comments.
pub mod ptn_parser;
pub mod ptn_writer;

pub use ptn_parser::{Game, PtnMove};

//! A lexical scanner for a small Lox-style scripting language.
//!
//! The scanner walks a source text once, left to right, and produces a
//! sequence of tokens ending in a single EOF token, or stops at the first
//! lexical error with the line it happened on.  The intended token sequence
//! for a given source text is written down as a specification function
//! (`model::scan_all`), and the executable scanner is proved to return
//! exactly that sequence.

pub mod lemmas;
pub mod lox;
pub mod model;
pub mod scanner;
pub mod token;

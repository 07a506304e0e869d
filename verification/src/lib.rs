//! fanva — an English→Lojban translator engine whose local gates are a strict
//! parser for a fragment of Lojban and a semantic compiler from that fragment to
//! first-order logic.

pub mod prompt;
pub mod lexer;
pub mod ast;
pub mod parser;
pub mod derive;
pub mod dictionary;
pub mod form;
pub mod interner;
pub mod logic;
pub mod compile;
pub mod gates;
pub mod text;
pub mod report;
pub mod laws;

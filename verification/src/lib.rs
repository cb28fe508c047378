//! A single-pass source-to-source translator for a small imperative
//! language (variables, conditionals, bounded loops, labeled jumps,
//! console I/O), emitting equivalent C code.
//!
//! The pipeline has three stages: a scanner ([`lex::Lexer`]) that turns
//! source text into classified tokens, a recursive-descent parser
//! ([`parse::Parser`]) that recognizes the grammar and generates target
//! text as it goes, and an emitter ([`emit::Emitter`]) that accumulates
//! the generated text in two append-only buffers (header and body).

pub mod emit;
pub mod error;
pub mod lex;
pub mod parse;
pub mod seqs;

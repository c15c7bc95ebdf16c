//! An interactive-calculator core: a tokenizer for atoms and single-character
//! operators, a Pratt (precedence-climbing) parser that builds an S-expression
//! tree, and a recursive evaluator over a table of named variables.
//!
//! Each stage is specified against a spec-level twin: [`lexer::spec_tokenize`]
//! for the tokenizer, [`parser::spec_parse_expr`] for the parser and
//! [`eval::spec_compute`] for the evaluator, so the behaviour of a whole line
//! is pinned down from text to result.

pub mod eval;
pub mod infixes;
pub mod laws;
pub mod lexer;
pub mod parser;
pub mod s_expr;
pub mod token;
pub mod vars;

//! Tokens produced by the tokenizer.

use vstd::prelude::*;

verus! {

/// A token of the input text.
///
/// An `Atom` is a maximal run of consecutive ASCII alphanumeric characters;
/// whether it means an integer literal or a variable name is decided only at
/// evaluation time.  Every other non-whitespace character is a
/// single-character `Op`.  `Eof` is the sentinel the cursor hands out once
/// the sequence is exhausted; the tokenizer never stores it.
#[derive(Debug, PartialEq, Eq)]
pub enum Token {
    Atom(String),
    Op(char),
    Eof,
}

/// The mathematical value of a [`Token`]: the atom text as a sequence of
/// characters.
pub enum TokenView {
    Atom(Seq<char>),
    Op(char),
    Eof,
}

impl View for Token {
    type V = TokenView;

    open spec fn view(&self) -> TokenView {
        match self {
            Token::Atom(s) => TokenView::Atom(s@),
            Token::Op(c) => TokenView::Op(*c),
            Token::Eof => TokenView::Eof,
        }
    }
}

} // verus!

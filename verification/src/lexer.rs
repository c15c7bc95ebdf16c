//! The tokenizer: turns input text into a sequence of tokens, consumed
//! front-to-back through a peek/next cursor.

use vstd::prelude::*;
use vstd::string::StrSliceExecFns;
use crate::token::{Token, TokenView};

verus! {

/// ASCII alphanumeric: a decimal digit or an ASCII letter.
pub open spec fn is_alnum_char(c: char) -> bool {
    (48 <= c as u32 && c as u32 <= 57)
    || (65 <= c as u32 && c as u32 <= 90)
    || (97 <= c as u32 && c as u32 <= 122)
}

/// ASCII whitespace: space, tab, line feed, form feed, carriage return.
pub open spec fn is_space_char(c: char) -> bool {
    c as u32 == 32 || c as u32 == 9 || c as u32 == 10 || c as u32 == 12 || c as u32 == 13
}

fn alnum_char(c: char) -> (r: bool)
    ensures
        r == is_alnum_char(c),
{
    let u = c as u32;
    (48 <= u && u <= 57) || (65 <= u && u <= 90) || (97 <= u && u <= 122)
}

fn space_char(c: char) -> (r: bool)
    ensures
        r == is_space_char(c),
{
    let u = c as u32;
    u == 32 || u == 9 || u == 10 || u == 12 || u == 13
}

/// Length of the longest alphanumeric prefix of `s`.
pub open spec fn alnum_run(s: Seq<char>) -> nat
    decreases s.len(),
{
    if s.len() == 0 || !is_alnum_char(s[0]) {
        0
    } else {
        1 + alnum_run(s.skip(1))
    }
}

/// The token sequence of the input text: whitespace separates tokens and is
/// dropped, a maximal alphanumeric run is one `Atom`, and every other
/// character is a single-character `Op`.
pub open spec fn spec_tokenize(s: Seq<char>) -> Seq<TokenView>
    decreases s.len(),
{
    if s.len() == 0 {
        Seq::empty()
    } else if is_space_char(s[0]) {
        spec_tokenize(s.skip(1))
    } else if !is_alnum_char(s[0]) {
        seq![TokenView::Op(s[0])] + spec_tokenize(s.skip(1))
    } else {
        let run = 1 + alnum_run(s.skip(1));
        if run <= s.len() {
            seq![TokenView::Atom(s.take(run as int))] + spec_tokenize(s.skip(run as int))
        } else {
            // Never reached: an alphanumeric run is at most the whole text.
            seq![TokenView::Atom(s)]
        }
    }
}

proof fn lemma_alnum_run_exact(s: Seq<char>, k: int)
    requires
        0 <= k <= s.len(),
        forall|j: int| 0 <= j < k ==> is_alnum_char(#[trigger] s[j]),
        k == s.len() || !is_alnum_char(s[k]),
    ensures
        alnum_run(s) == k,
    decreases k,
{
    if k == 0 {
        assert(s.len() == 0 || !is_alnum_char(s[0]));
    } else {
        assert(is_alnum_char(s[0]));
        lemma_alnum_run_exact(s.skip(1), k - 1);
    }
}

/// Tokenizing a run of alphanumeric characters yields a single `Atom` token
/// whose text is exactly the input.
pub proof fn lemma_tokenize_alnum(s: Seq<char>)
    requires
        s.len() > 0,
        forall|j: int| 0 <= j < s.len() ==> is_alnum_char(#[trigger] s[j]),
    ensures
        spec_tokenize(s) == seq![TokenView::Atom(s)],
{
    lemma_alnum_run_exact(s, s.len() as int);
    lemma_alnum_run_exact(s.skip(1), s.len() as int - 1);
    assert(s.take(s.len() as int) =~= s);
    assert(s.skip(s.len() as int) =~= Seq::<char>::empty());
    assert(spec_tokenize(Seq::<char>::empty()) =~= Seq::<TokenView>::empty());
    assert(spec_tokenize(s) =~= seq![TokenView::Atom(s)]);
}

/// The tokenizer with its single-pass cursor: `peek` looks at the next token
/// without consuming it, `next` consumes it, and both hand out `Eof` once the
/// sequence is exhausted.
#[derive(Debug)]
pub struct Lexer {
    tokens: Vec<Token>,
    pos: usize,
}

impl View for Lexer {
    type V = Seq<TokenView>;

    /// The tokens not yet consumed, in the order they will be handed out.
    closed spec fn view(&self) -> Seq<TokenView> {
        if self.pos <= self.tokens@.len() {
            self.tokens@.map_values(|t: Token| t@).skip(self.pos as int)
        } else {
            Seq::empty()
        }
    }
}

impl Lexer {
    /// Tokenizes the whole input up front; any text, including the empty
    /// one, yields a (possibly empty) token sequence.
    pub fn new(input: &str) -> (l: Lexer)
        ensures
            l@ == spec_tokenize(input@),
    {
        let n = input.unicode_len();
        let mut tokens: Vec<Token> = Vec::new();
        let mut i: usize = 0;
        proof {
            assert(input@.skip(0) =~= input@);
            assert(tokens@.map_values(|t: Token| t@) =~= Seq::<TokenView>::empty());
        }
        while i < n
            invariant
                n == input@.len(),
                i <= n,
                spec_tokenize(input@) == tokens@.map_values(|t: Token| t@)
                    + spec_tokenize(input@.skip(i as int)),
            decreases n - i,
        {
            let ghost pre = tokens@.map_values(|t: Token| t@);
            let c = input.get_char(i);
            if space_char(c) {
                proof {
                    assert(input@.skip(i as int).skip(1) =~= input@.skip(i as int + 1));
                }
                i += 1;
            } else if alnum_char(c) {
                let start = i;
                i += 1;
                while i < n && alnum_char(input.get_char(i))
                    invariant
                        n == input@.len(),
                        start < i <= n,
                        forall|j: int| start <= j < i ==> is_alnum_char(#[trigger] input@[j]),
                    decreases n - i,
                {
                    i += 1;
                }
                let text = input.substring_char(start, i).to_owned();
                proof {
                    let rest = input@.skip(start as int);
                    assert(forall|j: int| 0 <= j < i - start ==> is_alnum_char(#[trigger] rest[j]));
                    lemma_alnum_run_exact(rest, i - start);
                    lemma_alnum_run_exact(rest.skip(1), i - start - 1);
                    assert(rest.take(i - start) =~= input@.subrange(start as int, i as int));
                    assert(rest.skip(i - start) =~= input@.skip(i as int));
                }
                tokens.push(Token::Atom(text));
                proof {
                    assert(tokens@.map_values(|t: Token| t@)
                        =~= pre + seq![TokenView::Atom(input@.subrange(start as int, i as int))]);
                    assert(spec_tokenize(input@) =~= tokens@.map_values(|t: Token| t@)
                        + spec_tokenize(input@.skip(i as int)));
                }
            } else {
                tokens.push(Token::Op(c));
                proof {
                    assert(input@.skip(i as int).skip(1) =~= input@.skip(i as int + 1));
                    assert(tokens@.map_values(|t: Token| t@)
                        =~= pre + seq![TokenView::Op(input@[i as int])]);
                    assert(spec_tokenize(input@) =~= tokens@.map_values(|t: Token| t@)
                        + spec_tokenize(input@.skip(i as int + 1)));
                }
                i += 1;
            }
        }
        proof {
            assert(input@.skip(n as int) =~= Seq::<char>::empty());
            assert(spec_tokenize(input@) =~= tokens@.map_values(|t: Token| t@));
        }
        let l = Lexer { tokens, pos: 0 };
        proof {
            assert(l@ =~= spec_tokenize(input@));
        }
        l
    }

    /// Consumes and returns the next token, or `Eof` once exhausted.
    pub fn next(&mut self) -> (t: Token)
        ensures
            old(self)@.len() > 0 ==> t@ == old(self)@[0] && final(self)@ == old(self)@.drop_first(),
            old(self)@.len() == 0 ==> t@ is Eof && final(self)@ == old(self)@,
    {
        if self.pos < self.tokens.len() {
            let t = clone_token(&self.tokens[self.pos]);
            self.pos += 1;
            proof {
                assert(self@ =~= old(self)@.drop_first());
            }
            t
        } else {
            Token::Eof
        }
    }

    /// Returns the next token without consuming it (idempotent), or `Eof`
    /// once exhausted.
    pub fn peek(&mut self) -> (t: Token)
        ensures
            final(self)@ == old(self)@,
            old(self)@.len() > 0 ==> t@ == old(self)@[0],
            old(self)@.len() == 0 ==> t@ is Eof,
    {
        if self.pos < self.tokens.len() {
            clone_token(&self.tokens[self.pos])
        } else {
            Token::Eof
        }
    }
}

fn clone_token(t: &Token) -> (r: Token)
    ensures
        r@ == t@,
{
    match t {
        Token::Atom(s) => Token::Atom(s.clone()),
        Token::Op(c) => Token::Op(*c),
        Token::Eof => Token::Eof,
    }
}

} // verus!

//! The Pratt (precedence-climbing) parser: consumes the token sequence and
//! builds one parse tree, guided by the binding-power table.

use vstd::prelude::*;
use crate::token::{Token, TokenView};
use crate::lexer::{Lexer, spec_tokenize};
use crate::s_expr::{S, SView};
use crate::infixes::{
    infix_binding_power, postfix_binding_power, prefix_binding_power, spec_infix_bp,
    spec_is_prefix_op, spec_postfix_bp, spec_prefix_bp,
};

verus! {

/// A fatal parse failure: an unknown prefix operator, a missing closing
/// `)` or `]`, or an unexpected token after a complete sub-expression.
#[derive(Debug, Clone, Copy, PartialEq, Eq)]
pub enum ParseError {
    Malformed,
}

/// One step of parsing from head position, defined with an explicit fuel so
/// that the recursion through [`parse_tail`] is well founded.  `fuel` is
/// irrelevant once it exceeds the token count (see [`lemma_parse_at_fuel`]);
/// [`spec_parse_expr`] fixes the canonical fuel.
pub open spec fn parse_at(ts: Seq<TokenView>, min_bp: u8, fuel: nat) -> Option<(SView, Seq<TokenView>)>
    decreases fuel, 1int,
{
    if fuel == 0 || ts.len() == 0 {
        None
    } else {
        match ts[0] {
            TokenView::Atom(text) => parse_tail(SView::Atom(text), ts.skip(1), min_bp, fuel),
            TokenView::Op(op) => {
                if op == '(' {
                    match parse_at(ts.skip(1), 0u8, (fuel - 1) as nat) {
                        Some(sub) => {
                            if sub.1.len() > 0 && sub.1[0] == TokenView::Op(')') {
                                parse_tail(sub.0, sub.1.skip(1), min_bp, (fuel - 1) as nat)
                            } else {
                                None
                            }
                        },
                        None => None,
                    }
                } else if spec_is_prefix_op(op) {
                    match parse_at(ts.skip(1), spec_prefix_bp(op), (fuel - 1) as nat) {
                        Some(sub) => parse_tail(
                            SView::Unary(op, Box::new(sub.0)),
                            sub.1,
                            min_bp,
                            (fuel - 1) as nat,
                        ),
                        None => None,
                    }
                } else {
                    None
                }
            },
            TokenView::Eof => None,
        }
    }
}

/// The loop of the parser: with `lhs` already built, extend it with postfix
/// and infix operators of binding power at least `min_bp`.
pub open spec fn parse_tail(lhs: SView, ts: Seq<TokenView>, min_bp: u8, fuel: nat) -> Option<(SView, Seq<TokenView>)>
    decreases fuel, 0int,
{
    if fuel == 0 {
        None
    } else if ts.len() == 0 {
        Some((lhs, ts))
    } else {
        match ts[0] {
            TokenView::Eof => Some((lhs, ts)),
            TokenView::Atom(_) => None,
            TokenView::Op(op) => {
                match spec_postfix_bp(op) {
                    Some(pbp) => {
                        if pbp.0 < min_bp {
                            Some((lhs, ts))
                        } else if op == '[' {
                            match parse_at(ts.skip(1), 0u8, (fuel - 1) as nat) {
                                Some(sub) => {
                                    if sub.1.len() > 0 && sub.1[0] == TokenView::Op(']') {
                                        parse_tail(
                                            SView::Binary('[', Box::new(lhs), Box::new(sub.0)),
                                            sub.1.skip(1),
                                            min_bp,
                                            (fuel - 1) as nat,
                                        )
                                    } else {
                                        None
                                    }
                                },
                                None => None,
                            }
                        } else {
                            parse_tail(
                                SView::Unary(op, Box::new(lhs)),
                                ts.skip(1),
                                min_bp,
                                (fuel - 1) as nat,
                            )
                        }
                    },
                    None => match spec_infix_bp(op) {
                        Some(ibp) => {
                            if ibp.0 < min_bp {
                                Some((lhs, ts))
                            } else {
                                match parse_at(ts.skip(1), ibp.1, (fuel - 1) as nat) {
                                    Some(sub) => parse_tail(
                                        SView::Binary(op, Box::new(lhs), Box::new(sub.0)),
                                        sub.1,
                                        min_bp,
                                        (fuel - 1) as nat,
                                    ),
                                    None => None,
                                }
                            }
                        },
                        None => Some((lhs, ts)),
                    },
                }
            },
        }
    }
}

/// Parsing an expression from head position, at the canonical fuel.
/// `None` is a fatal parse error; `Some` carries the tree and the tokens
/// left unconsumed.
pub open spec fn spec_parse_expr(ts: Seq<TokenView>, min_bp: u8) -> Option<(SView, Seq<TokenView>)> {
    parse_at(ts, min_bp, (ts.len() + 1) as nat)
}

/// Extending `lhs` with postfix/infix operators, at the canonical fuel.
pub open spec fn spec_parse_rest(lhs: SView, ts: Seq<TokenView>, min_bp: u8) -> Option<(SView, Seq<TokenView>)> {
    parse_tail(lhs, ts, min_bp, (ts.len() + 1) as nat)
}

/// Fuel does not matter once it exceeds the token count, and a successful
/// parse from head position consumes at least one token.
pub proof fn lemma_parse_at_fuel(ts: Seq<TokenView>, min_bp: u8, f1: nat, f2: nat)
    requires
        f1 > ts.len(),
        f2 > ts.len(),
    ensures
        parse_at(ts, min_bp, f1) == parse_at(ts, min_bp, f2),
        parse_at(ts, min_bp, f1) is Some ==> parse_at(ts, min_bp, f1)->Some_0.1.len() < ts.len(),
    decreases f1, 1int,
{
    if ts.len() == 0 {
        return ;
    }
    match ts[0] {
        TokenView::Atom(text) => {
            lemma_parse_tail_fuel(SView::Atom(text), ts.skip(1), min_bp, f1, f2);
        },
        TokenView::Op(op) => {
            if op == '(' {
                lemma_parse_at_fuel(ts.skip(1), 0u8, (f1 - 1) as nat, (f2 - 1) as nat);
                let sub = parse_at(ts.skip(1), 0u8, (f1 - 1) as nat);
                if sub is Some {
                    let p = sub->Some_0;
                    if p.1.len() > 0 && p.1[0] == TokenView::Op(')') {
                        lemma_parse_tail_fuel(p.0, p.1.skip(1), min_bp, (f1 - 1) as nat, (f2 - 1) as nat);
                    }
                }
            } else if spec_is_prefix_op(op) {
                lemma_parse_at_fuel(ts.skip(1), spec_prefix_bp(op), (f1 - 1) as nat, (f2 - 1) as nat);
                let sub = parse_at(ts.skip(1), spec_prefix_bp(op), (f1 - 1) as nat);
                if sub is Some {
                    let p = sub->Some_0;
                    lemma_parse_tail_fuel(SView::Unary(op, Box::new(p.0)), p.1, min_bp, (f1 - 1) as nat, (f2 - 1) as nat);
                }
            }
        },
        TokenView::Eof => {},
    }
}

/// Fuel does not matter once it exceeds the token count, and the loop never
/// hands back more tokens than it was given.
pub proof fn lemma_parse_tail_fuel(lhs: SView, ts: Seq<TokenView>, min_bp: u8, f1: nat, f2: nat)
    requires
        f1 > ts.len(),
        f2 > ts.len(),
    ensures
        parse_tail(lhs, ts, min_bp, f1) == parse_tail(lhs, ts, min_bp, f2),
        parse_tail(lhs, ts, min_bp, f1) is Some ==> parse_tail(lhs, ts, min_bp, f1)->Some_0.1.len() <= ts.len(),
    decreases f1, 0int,
{
    if ts.len() == 0 {
        return ;
    }
    match ts[0] {
        TokenView::Eof => {},
        TokenView::Atom(_) => {},
        TokenView::Op(op) => {
            match spec_postfix_bp(op) {
                Some(pbp) => {
                    if pbp.0 < min_bp {
                    } else if op == '[' {
                        lemma_parse_at_fuel(ts.skip(1), 0u8, (f1 - 1) as nat, (f2 - 1) as nat);
                        let sub = parse_at(ts.skip(1), 0u8, (f1 - 1) as nat);
                        if sub is Some {
                            let p = sub->Some_0;
                            if p.1.len() > 0 && p.1[0] == TokenView::Op(']') {
                                lemma_parse_tail_fuel(
                                    SView::Binary('[', Box::new(lhs), Box::new(p.0)),
                                    p.1.skip(1),
                                    min_bp,
                                    (f1 - 1) as nat,
                                    (f2 - 1) as nat,
                                );
                            }
                        }
                    } else {
                        lemma_parse_tail_fuel(
                            SView::Unary(op, Box::new(lhs)),
                            ts.skip(1),
                            min_bp,
                            (f1 - 1) as nat,
                            (f2 - 1) as nat,
                        );
                    }
                },
                None => {
                    match spec_infix_bp(op) {
                        Some(ibp) => {
                            if ibp.0 < min_bp {
                            } else {
                                lemma_parse_at_fuel(ts.skip(1), ibp.1, (f1 - 1) as nat, (f2 - 1) as nat);
                                let sub = parse_at(ts.skip(1), ibp.1, (f1 - 1) as nat);
                                if sub is Some {
                                    let p = sub->Some_0;
                                    lemma_parse_tail_fuel(
                                        SView::Binary(op, Box::new(lhs), Box::new(p.0)),
                                        p.1,
                                        min_bp,
                                        (f1 - 1) as nat,
                                        (f2 - 1) as nat,
                                    );
                                }
                            }
                        },
                        None => {},
                    }
                },
            }
        },
    }
}

proof fn lemma_parse_atom(ts: Seq<TokenView>, min_bp: u8, text: Seq<char>)
    requires
        ts.len() > 0,
        ts[0] == TokenView::Atom(text),
    ensures
        spec_parse_expr(ts, min_bp) == spec_parse_rest(SView::Atom(text), ts.skip(1), min_bp),
{
    lemma_parse_tail_fuel(
        SView::Atom(text),
        ts.skip(1),
        min_bp,
        (ts.len() + 1) as nat,
        ts.len() as nat,
    );
}

proof fn lemma_parse_bad_head(ts: Seq<TokenView>, min_bp: u8)
    requires
        ts.len() == 0 || ts[0] is Eof
            || (ts[0] matches TokenView::Op(op) && op != '(' && !spec_is_prefix_op(op)),
    ensures
        spec_parse_expr(ts, min_bp) is None,
{
}

proof fn lemma_parse_lparen(ts: Seq<TokenView>, min_bp: u8)
    requires
        ts.len() > 0,
        ts[0] == TokenView::Op('('),
    ensures
        spec_parse_expr(ts.skip(1), 0u8) is None ==> spec_parse_expr(ts, min_bp) is None,
        spec_parse_expr(ts.skip(1), 0u8) matches Some(p) ==> {
            &&& p.1.len() < ts.skip(1).len()
            &&& (p.1.len() > 0 && p.1[0] == TokenView::Op(')')) ==> spec_parse_expr(ts, min_bp)
                == spec_parse_rest(p.0, p.1.skip(1), min_bp)
            &&& !(p.1.len() > 0 && p.1[0] == TokenView::Op(')')) ==> spec_parse_expr(ts, min_bp) is None
        },
{
    lemma_parse_at_fuel(ts.skip(1), 0u8, ts.len() as nat, ts.len() as nat);
    let sub = spec_parse_expr(ts.skip(1), 0u8);
    if sub is Some {
        let p = sub->Some_0;
        if p.1.len() > 0 && p.1[0] == TokenView::Op(')') {
            lemma_parse_tail_fuel(
                p.0,
                p.1.skip(1),
                min_bp,
                ts.len() as nat,
                (p.1.skip(1).len() + 1) as nat,
            );
        }
    }
}

proof fn lemma_parse_prefix(ts: Seq<TokenView>, min_bp: u8, op: char)
    requires
        ts.len() > 0,
        ts[0] == TokenView::Op(op),
        spec_is_prefix_op(op),
    ensures
        spec_parse_expr(ts.skip(1), spec_prefix_bp(op)) is None ==> spec_parse_expr(ts, min_bp) is None,
        spec_parse_expr(ts.skip(1), spec_prefix_bp(op)) matches Some(p) ==> {
            &&& p.1.len() < ts.skip(1).len()
            &&& spec_parse_expr(ts, min_bp) == spec_parse_rest(
                SView::Unary(op, Box::new(p.0)),
                p.1,
                min_bp,
            )
        },
{
    lemma_parse_at_fuel(ts.skip(1), spec_prefix_bp(op), ts.len() as nat, ts.len() as nat);
    let sub = spec_parse_expr(ts.skip(1), spec_prefix_bp(op));
    if sub is Some {
        let p = sub->Some_0;
        lemma_parse_tail_fuel(
            SView::Unary(op, Box::new(p.0)),
            p.1,
            min_bp,
            ts.len() as nat,
            (p.1.len() + 1) as nat,
        );
    }
}

proof fn lemma_tail_end(lhs: SView, ts: Seq<TokenView>, min_bp: u8)
    requires
        ts.len() == 0 || ts[0] is Eof,
    ensures
        spec_parse_rest(lhs, ts, min_bp) == Some((lhs, ts)),
{
}

proof fn lemma_tail_atom(lhs: SView, ts: Seq<TokenView>, min_bp: u8)
    requires
        ts.len() > 0,
        ts[0] is Atom,
    ensures
        spec_parse_rest(lhs, ts, min_bp) is None,
{
}

proof fn lemma_tail_stop(lhs: SView, ts: Seq<TokenView>, min_bp: u8, op: char)
    requires
        ts.len() > 0,
        ts[0] == TokenView::Op(op),
        match spec_postfix_bp(op) {
            Some(pbp) => pbp.0 < min_bp,
            None => match spec_infix_bp(op) {
                Some(ibp) => ibp.0 < min_bp,
                None => true,
            },
        },
    ensures
        spec_parse_rest(lhs, ts, min_bp) == Some((lhs, ts)),
{
}

proof fn lemma_tail_bang(lhs: SView, ts: Seq<TokenView>, min_bp: u8, op: char)
    requires
        ts.len() > 0,
        ts[0] == TokenView::Op(op),
        spec_postfix_bp(op) is Some,
        spec_postfix_bp(op)->Some_0.0 >= min_bp,
        op != '[',
    ensures
        spec_parse_rest(lhs, ts, min_bp) == spec_parse_rest(
            SView::Unary(op, Box::new(lhs)),
            ts.skip(1),
            min_bp,
        ),
{
    lemma_parse_tail_fuel(
        SView::Unary(op, Box::new(lhs)),
        ts.skip(1),
        min_bp,
        ts.len() as nat,
        (ts.skip(1).len() + 1) as nat,
    );
}

proof fn lemma_tail_bracket(lhs: SView, ts: Seq<TokenView>, min_bp: u8)
    requires
        ts.len() > 0,
        ts[0] == TokenView::Op('['),
        spec_postfix_bp('[')->Some_0.0 >= min_bp,
    ensures
        spec_parse_expr(ts.skip(1), 0u8) is None ==> spec_parse_rest(lhs, ts, min_bp) is None,
        spec_parse_expr(ts.skip(1), 0u8) matches Some(p) ==> {
            &&& p.1.len() < ts.skip(1).len()
            &&& (p.1.len() > 0 && p.1[0] == TokenView::Op(']')) ==> spec_parse_rest(lhs, ts, min_bp)
                == spec_parse_rest(SView::Binary('[', Box::new(lhs), Box::new(p.0)), p.1.skip(1), min_bp)
            &&& !(p.1.len() > 0 && p.1[0] == TokenView::Op(']')) ==> spec_parse_rest(lhs, ts, min_bp) is None
        },
{
    lemma_parse_at_fuel(ts.skip(1), 0u8, ts.len() as nat, ts.len() as nat);
    let sub = spec_parse_expr(ts.skip(1), 0u8);
    if sub is Some {
        let p = sub->Some_0;
        if p.1.len() > 0 && p.1[0] == TokenView::Op(']') {
            lemma_parse_tail_fuel(
                SView::Binary('[', Box::new(lhs), Box::new(p.0)),
                p.1.skip(1),
                min_bp,
                ts.len() as nat,
                (p.1.skip(1).len() + 1) as nat,
            );
        }
    }
}

proof fn lemma_tail_infix(lhs: SView, ts: Seq<TokenView>, min_bp: u8, op: char)
    requires
        ts.len() > 0,
        ts[0] == TokenView::Op(op),
        spec_postfix_bp(op) is None,
        spec_infix_bp(op) is Some,
        spec_infix_bp(op)->Some_0.0 >= min_bp,
    ensures
        spec_parse_expr(ts.skip(1), spec_infix_bp(op)->Some_0.1) is None ==> spec_parse_rest(
            lhs,
            ts,
            min_bp,
        ) is None,
        spec_parse_expr(ts.skip(1), spec_infix_bp(op)->Some_0.1) matches Some(p) ==> {
            &&& p.1.len() < ts.skip(1).len()
            &&& spec_parse_rest(lhs, ts, min_bp) == spec_parse_rest(
                SView::Binary(op, Box::new(lhs), Box::new(p.0)),
                p.1,
                min_bp,
            )
        },
{
    let r_bp = spec_infix_bp(op)->Some_0.1;
    lemma_parse_at_fuel(ts.skip(1), r_bp, ts.len() as nat, ts.len() as nat);
    let sub = spec_parse_expr(ts.skip(1), r_bp);
    if sub is Some {
        let p = sub->Some_0;
        lemma_parse_tail_fuel(
            SView::Binary(op, Box::new(lhs), Box::new(p.0)),
            p.1,
            min_bp,
            ts.len() as nat,
            (p.1.len() + 1) as nat,
        );
    }
}

/// Parses one expression whose operators all bind at least as tightly as
/// `min_bp`, consuming the tokens it uses.  The result and the tokens left
/// over are exactly those of [`spec_parse_expr`]; `Err` exactly when that is
/// `None`.
pub fn expr_bp(lexer: &mut Lexer, min_bp: u8) -> (r: Result<S, ParseError>)
    ensures
        (r is Ok) == (spec_parse_expr(old(lexer)@, min_bp) is Some),
        r matches Ok(t) ==> spec_parse_expr(old(lexer)@, min_bp) == Some((t@, final(lexer)@)),
        final(lexer)@.len() <= old(lexer)@.len(),
    decreases old(lexer)@.len(),
{
    let ghost ts0 = lexer@;
    let t = lexer.next();
    let mut lhs: S;
    match t {
        Token::Atom(text) => {
            proof {
                lemma_parse_atom(ts0, min_bp, text@);
            }
            lhs = S::Atom(text);
        },
        Token::Op(c) => {
            if c == '(' {
                proof {
                    lemma_parse_lparen(ts0, min_bp);
                }
                let sub = expr_bp(lexer, 0);
                match sub {
                    Err(e) => {
                        return Err(e);
                    },
                    Ok(s) => {
                        let nt = lexer.next();
                        match nt {
                            Token::Op(c2) => {
                                if c2 == ')' {
                                    lhs = s;
                                } else {
                                    return Err(ParseError::Malformed);
                                }
                            },
                            _ => {
                                return Err(ParseError::Malformed);
                            },
                        }
                    },
                }
            } else if c == '+' || c == '-' {
                proof {
                    lemma_parse_prefix(ts0, min_bp, c);
                }
                let bp = prefix_binding_power(c);
                let sub = expr_bp(lexer, bp.1);
                match sub {
                    Err(e) => {
                        return Err(e);
                    },
                    Ok(s) => {
                        lhs = S::Unary(c, Box::new(s));
                    },
                }
            } else {
                proof {
                    lemma_parse_bad_head(ts0, min_bp);
                }
                return Err(ParseError::Malformed);
            }
        },
        Token::Eof => {
            proof {
                lemma_parse_bad_head(ts0, min_bp);
            }
            return Err(ParseError::Malformed);
        },
    }
    loop
        invariant
            ts0 == old(lexer)@,
            spec_parse_expr(ts0, min_bp) == spec_parse_rest(lhs@, lexer@, min_bp),
            lexer@.len() < ts0.len(),
        decreases lexer@.len(),
    {
        let ghost tsl = lexer@;
        let p = lexer.peek();
        match p {
            Token::Eof => {
                proof {
                    lemma_tail_end(lhs@, tsl, min_bp);
                }
                return Ok(lhs);
            },
            Token::Atom(_) => {
                proof {
                    lemma_tail_atom(lhs@, tsl, min_bp);
                }
                return Err(ParseError::Malformed);
            },
            Token::Op(op) => {
                match postfix_binding_power(op) {
                    Some(pb) => {
                        if pb.0 < min_bp {
                            proof {
                                lemma_tail_stop(lhs@, tsl, min_bp, op);
                            }
                            return Ok(lhs);
                        }
                        let _ = lexer.next();
                        if op == '[' {
                            proof {
                                lemma_tail_bracket(lhs@, tsl, min_bp);
                            }
                            let sub = expr_bp(lexer, 0);
                            match sub {
                                Err(e) => {
                                    return Err(e);
                                },
                                Ok(rhs) => {
                                    let nt = lexer.next();
                                    match nt {
                                        Token::Op(c2) => {
                                            if c2 == ']' {
                                                lhs = S::Binary('[', Box::new(lhs), Box::new(rhs));
                                            } else {
                                                return Err(ParseError::Malformed);
                                            }
                                        },
                                        _ => {
                                            return Err(ParseError::Malformed);
                                        },
                                    }
                                },
                            }
                        } else {
                            proof {
                                lemma_tail_bang(lhs@, tsl, min_bp, op);
                            }
                            lhs = S::Unary(op, Box::new(lhs));
                        }
                    },
                    None => {
                        match infix_binding_power(op) {
                            Some(ib) => {
                                if ib.0 < min_bp {
                                    proof {
                                        lemma_tail_stop(lhs@, tsl, min_bp, op);
                                    }
                                    return Ok(lhs);
                                }
                                let _ = lexer.next();
                                proof {
                                    lemma_tail_infix(lhs@, tsl, min_bp, op);
                                }
                                let sub = expr_bp(lexer, ib.1);
                                match sub {
                                    Err(e) => {
                                        return Err(e);
                                    },
                                    Ok(rhs) => {
                                        lhs = S::Binary(op, Box::new(lhs), Box::new(rhs));
                                    },
                                }
                            },
                            None => {
                                proof {
                                    lemma_tail_stop(lhs@, tsl, min_bp, op);
                                }
                                return Ok(lhs);
                            },
                        }
                    },
                }
            },
        }
    }
}

/// The parse of a whole input line: its token sequence parsed from head
/// position with minimum binding power 0.  Tokens the loop does not treat
/// as postfix or infix (a stray `)`, an unknown symbol) end the expression
/// without error and are left unconsumed.
pub open spec fn spec_expr(input: Seq<char>) -> Option<SView> {
    match spec_parse_expr(spec_tokenize(input), 0u8) {
        Some(p) => Some(p.0),
        None => None,
    }
}

/// Tokenizes and parses one input line.  `Err` exactly on the inputs whose
/// parse is fatal: an unknown prefix operator, a missing `)` or `]`, an
/// atom right after a complete sub-expression, or an empty token sequence.
pub fn expr(input: &str) -> (r: Result<S, ParseError>)
    ensures
        (r is Ok) == (spec_expr(input@) is Some),
        r matches Ok(t) ==> spec_expr(input@) == Some(t@),
{
    let mut lexer = Lexer::new(input);
    expr_bp(&mut lexer, 0)
}

} // verus!

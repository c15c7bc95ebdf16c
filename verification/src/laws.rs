//! Properties that relate several parts of the library, stated and proved
//! over the same spec functions the public contracts use.

use vstd::prelude::*;
use crate::eval::{spec_compute, spec_parse_i32, unwrap_or_zero, EvalError};
use crate::infixes::{spec_infix_bp, spec_is_prefix_op, spec_prefix_bp};
use crate::lexer::{is_alnum_char, lemma_tokenize_alnum, spec_tokenize};
use crate::parser::{parse_tail, spec_expr, spec_parse_expr};
use crate::s_expr::{spec_render, SView};
use crate::token::TokenView;
use crate::vars::spec_lookup;

verus! {

/// Unary prefix `+` and `-` bind tighter than any infix operator: the
/// right binding power of a prefix operator is above the left binding
/// power of every infix operator, so the operand a prefix operator takes
/// never extends across an infix operator.
pub proof fn lemma_prefix_tighter_than_infix(p: char, op: char)
    requires
        spec_is_prefix_op(p),
        spec_infix_bp(op) is Some,
    ensures
        spec_infix_bp(op)->Some_0.0 < spec_prefix_bp(p),
{
}

/// Equality and comparison return exactly 0 or 1: whenever a `=` or `>`
/// node evaluates without a fatal error, its value is present and is
/// either 0 or 1.
pub proof fn lemma_eq_gt_zero_one(t: SView, m: Map<Seq<char>, i32>)
    requires
        t is Binary,
        t->Binary_0 == '=' || t->Binary_0 == '>',
    ensures
        spec_compute(t, m).0 matches Ok(v) ==> v matches Some(x) && (x == 0 || x == 1),
{
}

/// Assignment stores and returns the assigned value, and a subsequent read
/// of the assigned name yields exactly that value: for a name that is no
/// integer literal, evaluating `(< name rhs)` returns the value of `rhs`
/// (defaulted to 0 where `rhs` has none), records it under the name, and a
/// later atom `name` evaluates to it.
pub proof fn lemma_assign_then_read(name: Seq<char>, rhs: SView, m: Map<Seq<char>, i32>)
    requires
        spec_parse_i32(name) is None,
        spec_compute(rhs, m).0 is Ok,
    ensures
        ({
            let v = unwrap_or_zero(spec_compute(rhs, m).0->Ok_0);
            let after = spec_compute(
                SView::Binary('<', Box::new(SView::Atom(name)), Box::new(rhs)),
                m,
            );
            &&& after.0 == Ok::<Option<i32>, EvalError>(Some(v))
            &&& after.1 == spec_compute(rhs, m).1.insert(name, v)
            &&& spec_compute(SView::Atom(name), after.1).0 == Ok::<Option<i32>, EvalError>(
                Some(v),
            )
        }),
{
    let v = unwrap_or_zero(spec_compute(rhs, m).0->Ok_0);
    let m1 = spec_compute(rhs, m).1;
    assert(spec_lookup(m1.insert(name, v), name) == Some(v));
}

/// Re-parsing the canonical rendering of a leaf reproduces the leaf: the
/// rendering of an atom is its text, which tokenizes back to a single atom
/// token and parses back to the same tree.
pub proof fn lemma_render_parse_atom(text: Seq<char>)
    requires
        text.len() > 0,
        forall|i: int| 0 <= i < text.len() ==> is_alnum_char(#[trigger] text[i]),
    ensures
        spec_expr(spec_render(SView::Atom(text))) == Some(SView::Atom(text)),
{
    lemma_tokenize_alnum(text);
    let ts = seq![TokenView::Atom(text)];
    assert(spec_tokenize(text) == ts);
    assert(ts.skip(1) =~= Seq::<TokenView>::empty());
    assert(parse_tail(SView::Atom(text), ts.skip(1), 0u8, 2nat) == Some(
        (SView::Atom(text), ts.skip(1)),
    ));
    assert(spec_parse_expr(ts, 0u8) == Some((SView::Atom(text), ts.skip(1))));
}

} // verus!

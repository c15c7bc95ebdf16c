//! The fixed binding-power table.  Higher numbers bind tighter.

use vstd::prelude::*;

verus! {

/// Left/right binding powers of the infix operators.  The conditional `?`
/// and its `:` separator sit lowest; assignment `<`, equality `=` and
/// comparison `>` share one level; additive and multiplicative operators
/// follow; exponentiation `^` binds tighter than multiplication.
pub open spec fn spec_infix_bp(op: char) -> Option<(u8, u8)> {
    if op == '?' {
        Some((1u8, 2u8))
    } else if op == ':' {
        Some((3u8, 4u8))
    } else if op == '=' || op == '<' || op == '>' {
        Some((5u8, 6u8))
    } else if op == '+' || op == '-' {
        Some((7u8, 8u8))
    } else if op == '*' || op == '/' {
        Some((9u8, 10u8))
    } else if op == '^' {
        Some((11u8, 12u8))
    } else {
        None
    }
}

/// Only `+` and `-` may appear prefix.
pub open spec fn spec_is_prefix_op(op: char) -> bool {
    op == '+' || op == '-'
}

/// Right binding power of a prefix operator: above every infix level, so
/// that unary prefix `+` and `-` bind tighter than any infix operator.
pub open spec fn spec_prefix_bp(op: char) -> u8 {
    13u8
}

/// Left binding power of the postfix operators `!` and `[`.
pub open spec fn spec_postfix_bp(op: char) -> Option<(u8, ())> {
    if op == '!' || op == '[' {
        Some((7u8, ()))
    } else {
        None
    }
}

/// Binding powers of `op` used infix, or `None` where `op` has no infix
/// meaning (the caller treats `None` as "not an infix operator here").
pub fn infix_binding_power(op: char) -> (r: Option<(u8, u8)>)
    ensures
        r == spec_infix_bp(op),
{
    match op {
        '?' => Some((1, 2)),
        ':' => Some((3, 4)),
        '=' | '<' | '>' => Some((5, 6)),
        '+' | '-' => Some((7, 8)),
        '*' | '/' => Some((9, 10)),
        '^' => Some((11, 12)),
        _ => None,
    }
}

/// Right binding power of a prefix operator.  The parser calls this only
/// once it has decided that `op` starts a prefix expression, so a defined
/// prefix operator is a precondition here.
pub fn prefix_binding_power(op: char) -> (r: ((), u8))
    requires
        spec_is_prefix_op(op),
    ensures
        r.1 == spec_prefix_bp(op),
{
    ((), 13)
}

/// Left binding power of `op` used postfix, or `None` where `op` has no
/// postfix meaning.
pub fn postfix_binding_power(op: char) -> (r: Option<(u8, ())>)
    ensures
        r == spec_postfix_bp(op),
{
    match op {
        '!' | '[' => Some((7, ())),
        _ => None,
    }
}

} // verus!

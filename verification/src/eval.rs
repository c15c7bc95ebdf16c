//! The recursive tree evaluator: integer literals and variables at the
//! leaves, arithmetic, comparison, assignment and the conditional at the
//! nodes.

use vstd::prelude::*;
use vstd::string::StrSliceExecFns;
use crate::s_expr::{s_view, S, SView};
use crate::vars::{spec_lookup, VarTable};

verus! {

/// A fatal evaluation failure.  `BadToken` carries an operator symbol that
/// has no meaning at its arity; division by zero and arithmetic overflow
/// (including overflowing exponentiation and negation) are fatal as well,
/// so that a malformed line never tears the session down.
#[derive(Debug, Clone, Copy, PartialEq, Eq)]
pub enum EvalError {
    BadToken(char),
    DivByZero,
    Overflow,
}

/// A decimal digit.
pub open spec fn is_digit_char(c: char) -> bool {
    48 <= c as u32 <= 57
}

/// The numeric value of a run of decimal digits, most significant first.
pub open spec fn digits_val(s: Seq<char>) -> int
    decreases s.len(),
{
    if s.len() == 0 {
        0
    } else {
        digits_val(s.drop_last()) * 10 + (s.last() as u32 - 48)
    }
}

/// Whether every character of `s` is a decimal digit.
pub open spec fn all_digits(s: Seq<char>) -> bool {
    forall|i: int| 0 <= i < s.len() ==> is_digit_char(#[trigger] s[i])
}

/// The base-10 integer an atom's text denotes, if any: an optional sign,
/// then at least one digit, and a value within the 32-bit signed range.
/// Anything else (and any out-of-range value) is no integer, and the atom
/// is treated as a variable name instead.
pub open spec fn spec_parse_i32(s: Seq<char>) -> Option<i32> {
    if s.len() > 0 && (s[0] == '+' || s[0] == '-') {
        let d = s.skip(1);
        if d.len() > 0 && all_digits(d) {
            if s[0] == '-' {
                if -digits_val(d) >= i32::MIN {
                    Some((-digits_val(d)) as i32)
                } else {
                    None
                }
            } else {
                if digits_val(d) <= i32::MAX {
                    Some(digits_val(d) as i32)
                } else {
                    None
                }
            }
        } else {
            None
        }
    } else if s.len() > 0 && all_digits(s) {
        if digits_val(s) <= i32::MAX {
            Some(digits_val(s) as i32)
        } else {
            None
        }
    } else {
        None
    }
}

proof fn lemma_digits_val_nonneg(s: Seq<char>)
    requires
        all_digits(s),
    ensures
        digits_val(s) >= 0,
    decreases s.len(),
{
    if s.len() > 0 {
        assert(all_digits(s.drop_last()));
        lemma_digits_val_nonneg(s.drop_last());
    }
}

spec fn acc_tracks(acc: u64, dv: int) -> bool {
    (dv <= u32::MAX ==> acc == dv) && (dv > u32::MAX ==> acc > u32::MAX)
}

fn parse_atom_i32(s: &String) -> (r: Option<i32>)
    ensures
        r == spec_parse_i32(s@),
{
    let st = s.as_str();
    let n = st.unicode_len();
    if n == 0 {
        return None;
    }
    let c0 = st.get_char(0);
    let neg = c0 == '-';
    let has_sign = c0 == '+' || c0 == '-';
    let start: usize = if has_sign {
        1
    } else {
        0
    };
    if start == n {
        return None;
    }
    let ghost digits = if has_sign {
        s@.skip(1)
    } else {
        s@
    };
    proof {
        assert(s@.subrange(start as int, n as int) =~= digits);
    }
    let mut i = start;
    let mut acc: u64 = 0;
    while i < n
        invariant
            st@ == s@,
            n == s@.len(),
            start <= i <= n,
            n > 0,
            has_sign == (s@[0] == '+' || s@[0] == '-'),
            neg == (s@[0] == '-'),
            start == if has_sign { 1int } else { 0int },
            digits == if has_sign { s@.skip(1) } else { s@ },
            digits == s@.subrange(start as int, n as int),
            forall|j: int| start <= j < i ==> is_digit_char(#[trigger] s@[j]),
            acc_tracks(acc, digits_val(s@.subrange(start as int, i as int))),
        decreases n - i,
    {
        let c = st.get_char(i);
        let u = c as u32;
        if !(48 <= u && u <= 57) {
            proof {
                assert(digits[i - start] == s@[i as int]);
                assert(!all_digits(digits));
            }
            return None;
        }
        let ghost pre = s@.subrange(start as int, i as int);
        proof {
            assert(s@.subrange(start as int, i + 1).drop_last() =~= pre);
            assert(s@.subrange(start as int, i + 1).last() == s@[i as int]);
            assert(forall|j: int| 0 <= j < pre.len() ==> is_digit_char(#[trigger] pre[j]));
            lemma_digits_val_nonneg(pre);
        }
        let d = (u - 48) as u64;
        if acc <= 4294967295u64 {
            acc = acc * 10 + d;
        }
        i += 1;
    }
    proof {
        assert(s@.subrange(start as int, n as int) =~= digits);
        assert(forall|j: int| 0 <= j < digits.len() ==> is_digit_char(#[trigger] digits[j]));
        lemma_digits_val_nonneg(digits);
    }
    if neg {
        if acc <= 2147483648u64 {
            Some((-(acc as i64)) as i32)
        } else {
            None
        }
    } else {
        if acc <= 2147483647u64 {
            Some(acc as i32)
        } else {
            None
        }
    }
}

/// Exponentiation by repeated multiplication: `None` where some prefix
/// power already leaves the 32-bit signed range, which is the overflow
/// condition of the `^` operator.
pub open spec fn spec_pow(base: i32, e: nat) -> Option<i32>
    decreases e,
{
    if e == 0 {
        Some(1i32)
    } else {
        match spec_pow(base, (e - 1) as nat) {
            Some(v) => base.checked_mul(v),
            None => None,
        }
    }
}

/// The exponent the `^` operator uses: the right operand reinterpreted as
/// an unsigned 32-bit value (a negative operand becomes a huge exponent).
pub open spec fn spec_exp_u32(r: i32) -> u32 {
    if r >= 0 {
        r as u32
    } else {
        (r + 4294967296) as u32
    }
}

proof fn lemma_pow_zero(e: nat)
    ensures
        spec_pow(0i32, e) == Some(if e == 0 { 1i32 } else { 0i32 }),
    decreases e,
{
    if e > 0 {
        lemma_pow_zero((e - 1) as nat);
    }
}

proof fn lemma_pow_one(e: nat)
    ensures
        spec_pow(1i32, e) == Some(1i32),
    decreases e,
{
    if e > 0 {
        lemma_pow_one((e - 1) as nat);
    }
}

proof fn lemma_pow_neg_one(e: nat)
    ensures
        spec_pow(-1i32, e) == Some(if e % 2 == 0 { 1i32 } else { -1i32 }),
    decreases e,
{
    if e > 0 {
        lemma_pow_neg_one((e - 1) as nat);
    }
}

proof fn lemma_pow_none_sticky(base: i32, e1: nat, e2: nat)
    requires
        e1 <= e2,
        spec_pow(base, e1) is None,
    ensures
        spec_pow(base, e2) is None,
    decreases e2,
{
    if e2 > e1 {
        lemma_pow_none_sticky(base, e1, (e2 - 1) as nat);
    }
}

fn pow_i32(base: i32, e: u32) -> (r: Option<i32>)
    ensures
        r == spec_pow(base, e as nat),
{
    if base == 0 {
        proof {
            lemma_pow_zero(e as nat);
        }
        if e == 0 {
            Some(1)
        } else {
            Some(0)
        }
    } else if base == 1 {
        proof {
            lemma_pow_one(e as nat);
        }
        Some(1)
    } else if base == -1 {
        proof {
            lemma_pow_neg_one(e as nat);
        }
        if e % 2 == 0 {
            Some(1)
        } else {
            Some(-1)
        }
    } else {
        let mut acc: i32 = 1;
        let mut k: u32 = 0;
        while k < e
            invariant
                k <= e,
                spec_pow(base, k as nat) == Some(acc),
            decreases e - k,
        {
            match acc.checked_mul(base) {
                Some(v) => {
                    proof {
                        assert(acc * base == base * acc) by (nonlinear_arith);
                    }
                    acc = v;
                    k += 1;
                },
                None => {
                    proof {
                        assert(acc * base == base * acc) by (nonlinear_arith);
                        lemma_pow_none_sticky(base, (k + 1) as nat, e as nat);
                    }
                    return None;
                },
            }
        }
        Some(acc)
    }
}

/// The integer square root: the largest `r` with `r * r <= n`.
pub open spec fn spec_isqrt(n: nat) -> nat
    decreases n,
{
    if n == 0 {
        0
    } else {
        let r = spec_isqrt((n - 1) as nat);
        if (r + 1) * (r + 1) <= n {
            r + 1
        } else {
            r
        }
    }
}

proof fn lemma_isqrt_bounds(n: nat)
    ensures
        spec_isqrt(n) * spec_isqrt(n) <= n,
        n < (spec_isqrt(n) + 1) * (spec_isqrt(n) + 1),
    decreases n,
{
    if n == 0 {
        assert(spec_isqrt(n) == 0);
        assert(n < (spec_isqrt(n) + 1) * (spec_isqrt(n) + 1)) by (nonlinear_arith)
            requires
                n == 0,
                spec_isqrt(n) == 0,
        ;
    } else {
        lemma_isqrt_bounds((n - 1) as nat);
        let r = spec_isqrt((n - 1) as nat);
        assert((r + 1) * (r + 1) < (r + 2) * (r + 2)) by (nonlinear_arith);
        if (r + 1) * (r + 1) <= n {
            assert(spec_isqrt(n) == r + 1);
            assert(n < (spec_isqrt(n) + 1) * (spec_isqrt(n) + 1)) by (nonlinear_arith)
                requires
                    spec_isqrt(n) == r + 1,
                    n - 1 < (r + 1) * (r + 1),
                    n >= 1,
            ;
        } else {
            assert(spec_isqrt(n) == r);
            assert(n < (spec_isqrt(n) + 1) * (spec_isqrt(n) + 1)) by (nonlinear_arith)
                requires
                    spec_isqrt(n) == r,
                    !((r + 1) * (r + 1) <= n),
            ;
        }
    }
}

proof fn lemma_isqrt_unique(n: nat, r: nat)
    requires
        r * r <= n,
        n < (r + 1) * (r + 1),
    ensures
        r == spec_isqrt(n),
{
    lemma_isqrt_bounds(n);
    let s = spec_isqrt(n);
    if r < s {
        assert((r + 1) * (r + 1) <= s * s) by (nonlinear_arith)
            requires
                r + 1 <= s,
        ;
    }
    if s < r {
        assert((s + 1) * (s + 1) <= r * r) by (nonlinear_arith)
            requires
                s + 1 <= r,
        ;
    }
}

fn next_square_within(r: u64, n: u64) -> (b: bool)
    requires
        r < 65535,
    ensures
        b == ((r + 1) * (r + 1) <= n),
{
    proof {
        assert((r + 1) * (r + 1) <= 65535u64 * 65535u64) by (nonlinear_arith)
            requires
                r < 65535,
        ;
    }
    (r + 1) * (r + 1) <= n
}

fn isqrt_i32(n: i32) -> (r: i32)
    requires
        n >= 0,
    ensures
        r == spec_isqrt(n as nat),
{
    let nu = n as u64;
    let mut r: u64 = 0;
    while next_square_within(r, nu)
        invariant
            nu == n,
            nu <= 2147483647u64,
            r * r <= nu,
            r <= 46341,
        decreases nu - r,
    {
        proof {
            assert(r + 1 <= 46341 && r + 1 <= (r + 1) * (r + 1)) by (nonlinear_arith)
                requires
                    (r + 1) * (r + 1) <= 2147483647u64,
                    r >= 0,
            ;
        }
        r = r + 1;
    }
    proof {
        lemma_isqrt_unique(n as nat, r as nat);
    }
    r as i32
}

/// The value of `v`, defaulting a missing value to 0.  This default applies
/// exactly where the evaluator documents it: the condition and branches of
/// the conditional, the right-hand side of an assignment, and the first
/// operand of generic dispatch.
pub open spec fn unwrap_or_zero(v: Option<i32>) -> i32 {
    match v {
        Some(x) => x,
        None => 0,
    }
}

/// Generic binary dispatch: truncating arithmetic, exponentiation with the
/// right operand reinterpreted as unsigned, equality and comparison with
/// results 0 or 1.  Any other operator is fatal here.
pub open spec fn spec_binop(op: char, l: i32, r: i32) -> Result<Option<i32>, EvalError> {
    if op == '+' {
        match l.checked_add(r) {
            Some(v) => Ok(Some(v)),
            None => Err(EvalError::Overflow),
        }
    } else if op == '-' {
        match l.checked_sub(r) {
            Some(v) => Ok(Some(v)),
            None => Err(EvalError::Overflow),
        }
    } else if op == '*' {
        match l.checked_mul(r) {
            Some(v) => Ok(Some(v)),
            None => Err(EvalError::Overflow),
        }
    } else if op == '/' {
        if r == 0 {
            Err(EvalError::DivByZero)
        } else {
            match l.checked_div(r) {
                Some(v) => Ok(Some(v)),
                None => Err(EvalError::Overflow),
            }
        }
    } else if op == '^' {
        match spec_pow(l, spec_exp_u32(r) as nat) {
            Some(v) => Ok(Some(v)),
            None => Err(EvalError::Overflow),
        }
    } else if op == '=' {
        Ok(Some(if l == r { 1i32 } else { 0i32 }))
    } else if op == '>' {
        Ok(Some(if l > r { 1i32 } else { 0i32 }))
    } else {
        Err(EvalError::BadToken(op))
    }
}

/// Generic unary dispatch: `+` is the identity, `-` negates, `@` is the
/// integer square root (0 for a negative operand).  Any other operator is
/// fatal here.
pub open spec fn spec_unop(op: char, l: i32) -> Result<Option<i32>, EvalError> {
    if op == '+' {
        Ok(Some(l))
    } else if op == '-' {
        match (0i32).checked_sub(l) {
            Some(v) => Ok(Some(v)),
            None => Err(EvalError::Overflow),
        }
    } else if op == '@' {
        Ok(Some(if l < 0 { 0i32 } else { spec_isqrt(l as nat) as i32 }))
    } else {
        Err(EvalError::BadToken(op))
    }
}

/// The result and the variable table an evaluation leaves behind.
///
/// An atom is its integer value, or the variable's stored value, or "no
/// value" for an unassigned name.  Assignment (`<` with an atom first
/// child) stores and returns the right-hand value.  The conditional (`?`
/// whose second child is a `:` node) evaluates the condition and both
/// branches, and picks by the condition.  Everything else evaluates its
/// first child (defaulted to 0), then its second if there is one: a present
/// second value selects binary dispatch, a missing one selects unary
/// dispatch.  A fatal error aborts the walk, keeping the assignments made
/// up to that point.
pub open spec fn spec_compute(t: SView, m: Map<Seq<char>, i32>) -> (Result<
    Option<i32>,
    EvalError,
>, Map<Seq<char>, i32>)
    decreases t,
{
    match t {
        SView::Atom(text) => (
            Ok(
                match spec_parse_i32(text) {
                    Some(n) => Some(n),
                    None => spec_lookup(m, text),
                },
            ),
            m,
        ),
        SView::Unary(op, a) => {
            let sub = spec_compute(*a, m);
            match sub.0 {
                Err(e) => (Err(e), sub.1),
                Ok(lv) => (spec_unop(op, unwrap_or_zero(lv)), sub.1),
            }
        },
        SView::Binary(op, a, b) => {
            if op == '<' && *a is Atom {
                let name = (*a)->Atom_0;
                let sub = spec_compute(*b, m);
                match sub.0 {
                    Err(e) => (Err(e), sub.1),
                    Ok(vv) => {
                        let v = unwrap_or_zero(vv);
                        (Ok(Some(v)), sub.1.insert(name, v))
                    },
                }
            } else if op == '?' && *b is Binary && (*b)->Binary_0 == ':' {
                let tb = *(*b)->Binary_1;
                let fb = *(*b)->Binary_2;
                let cond = spec_compute(*a, m);
                match cond.0 {
                    Err(e) => (Err(e), cond.1),
                    Ok(cv) => {
                        let c = unwrap_or_zero(cv);
                        let tsub = spec_compute(tb, cond.1);
                        match tsub.0 {
                            Err(e) => (Err(e), tsub.1),
                            Ok(tv) => {
                                let fsub = spec_compute(fb, tsub.1);
                                match fsub.0 {
                                    Err(e) => (Err(e), fsub.1),
                                    Ok(fv) => (
                                        Ok(
                                            Some(
                                                if c != 0 {
                                                    unwrap_or_zero(tv)
                                                } else {
                                                    unwrap_or_zero(fv)
                                                },
                                            ),
                                        ),
                                        fsub.1,
                                    ),
                                }
                            },
                        }
                    },
                }
            } else {
                let lsub = spec_compute(*a, m);
                match lsub.0 {
                    Err(e) => (Err(e), lsub.1),
                    Ok(lv) => {
                        let l = unwrap_or_zero(lv);
                        let rsub = spec_compute(*b, lsub.1);
                        match rsub.0 {
                            Err(e) => (Err(e), rsub.1),
                            Ok(rv) => match rv {
                                Some(r0) => (spec_binop(op, l, r0), rsub.1),
                                None => (spec_unop(op, l), rsub.1),
                            },
                        }
                    },
                }
            }
        },
    }
}

fn exec_binop(op: char, l: i32, r: i32) -> (res: Result<Option<i32>, EvalError>)
    ensures
        res == spec_binop(op, l, r),
{
    match op {
        '+' => match l.checked_add(r) {
            Some(v) => Ok(Some(v)),
            None => Err(EvalError::Overflow),
        },
        '-' => match l.checked_sub(r) {
            Some(v) => Ok(Some(v)),
            None => Err(EvalError::Overflow),
        },
        '*' => match l.checked_mul(r) {
            Some(v) => Ok(Some(v)),
            None => Err(EvalError::Overflow),
        },
        '/' => {
            if r == 0 {
                Err(EvalError::DivByZero)
            } else {
                match l.checked_div(r) {
                    Some(v) => Ok(Some(v)),
                    None => Err(EvalError::Overflow),
                }
            }
        },
        '^' => {
            let e: u32 = if r >= 0 {
                r as u32
            } else {
                ((r as i64) + 4294967296i64) as u32
            };
            match pow_i32(l, e) {
                Some(v) => Ok(Some(v)),
                None => Err(EvalError::Overflow),
            }
        },
        '=' => Ok(Some(if l == r { 1 } else { 0 })),
        '>' => Ok(Some(if l > r { 1 } else { 0 })),
        _ => Err(EvalError::BadToken(op)),
    }
}

fn exec_unop(op: char, l: i32) -> (res: Result<Option<i32>, EvalError>)
    ensures
        res == spec_unop(op, l),
{
    match op {
        '+' => Ok(Some(l)),
        '-' => match (0i32).checked_sub(l) {
            Some(v) => Ok(Some(v)),
            None => Err(EvalError::Overflow),
        },
        '@' => {
            if l < 0 {
                Ok(Some(0))
            } else {
                proof {
                    lemma_isqrt_bounds(l as nat);
                }
                Ok(Some(isqrt_i32(l)))
            }
        },
        _ => Err(EvalError::BadToken(op)),
    }
}

/// Walks the tree and returns its value (`Ok(None)` is "no value": an
/// unassigned variable), mutating `vars` exactly at assignments.  Result
/// and final table are those of [`spec_compute`] on the tree and the
/// table's prior contents.
pub fn compute(s: &S, vars: &mut VarTable) -> (r: Result<Option<i32>, EvalError>)
    ensures
        r == spec_compute(s@, old(vars)@).0,
        final(vars)@ == spec_compute(s@, old(vars)@).1,
    decreases s,
{
    match s {
        S::Atom(text) => {
            match parse_atom_i32(text) {
                Some(n) => Ok(Some(n)),
                None => Ok(vars.get(text)),
            }
        },
        S::Unary(op, a) => {
            match compute(a, vars) {
                Err(e) => Err(e),
                Ok(lv) => {
                    let l = match lv {
                        Some(x) => x,
                        None => 0,
                    };
                    exec_unop(*op, l)
                },
            }
        },
        S::Binary(op, a, b) => {
            if *op == '<' {
                if let S::Atom(name) = &**a {
                    proof {
                        assert(s@ == SView::Binary(
                            *op,
                            Box::new(s_view(&**a)),
                            Box::new(s_view(&**b)),
                        ));
                        assert(s_view(&**a) == SView::Atom(name@));
                    }
                    return match compute(b, vars) {
                        Err(e) => Err(e),
                        Ok(vv) => {
                            let v = match vv {
                                Some(x) => x,
                                None => 0,
                            };
                            vars.set(name, v);
                            Ok(Some(v))
                        },
                    };
                }
            }
            if *op == '?' {
                if let S::Binary(c2, tb, fb) = &**b {
                    if *c2 == ':' {
                        proof {
                            assert(s@ == SView::Binary(
                                *op,
                                Box::new(s_view(&**a)),
                                Box::new(s_view(&**b)),
                            ));
                            assert(s_view(&**b) == SView::Binary(
                                *c2,
                                Box::new(s_view(&**tb)),
                                Box::new(s_view(&**fb)),
                            ));
                        }
                        return match compute(a, vars) {
                            Err(e) => Err(e),
                            Ok(cv) => {
                                let c = match cv {
                                    Some(x) => x,
                                    None => 0,
                                };
                                match compute(tb, vars) {
                                    Err(e) => Err(e),
                                    Ok(tv) => {
                                        match compute(fb, vars) {
                                            Err(e) => Err(e),
                                            Ok(fv) => Ok(
                                                Some(
                                                    if c != 0 {
                                                        match tv {
                                                            Some(x) => x,
                                                            None => 0,
                                                        }
                                                    } else {
                                                        match fv {
                                                            Some(x) => x,
                                                            None => 0,
                                                        }
                                                    },
                                                ),
                                            ),
                                        }
                                    },
                                }
                            },
                        };
                    }
                }
            }
            proof {
                assert(s@ == SView::Binary(*op, Box::new(s_view(&**a)), Box::new(s_view(&**b))));
            }
            match compute(a, vars) {
                Err(e) => Err(e),
                Ok(lv) => {
                    let l = match lv {
                        Some(x) => x,
                        None => 0,
                    };
                    match compute(b, vars) {
                        Err(e) => Err(e),
                        Ok(rv) => match rv {
                            Some(r0) => exec_binop(*op, l, r0),
                            None => exec_unop(*op, l),
                        },
                    }
                },
            }
        },
    }
}

} // verus!

use pratt_calc::eval::{compute, EvalError};
use pratt_calc::parser::expr;
use pratt_calc::s_expr::S;
use pratt_calc::vars::VarTable;

fn eval_fresh(input: &str) -> Result<Option<i32>, EvalError> {
    let tree = expr(input).expect("parse should succeed");
    let mut vars = VarTable::new();
    compute(&tree, &mut vars)
}

fn eval_in(input: &str, vars: &mut VarTable) -> Result<Option<i32>, EvalError> {
    let tree = expr(input).expect("parse should succeed");
    compute(&tree, vars)
}

#[test]
fn arithmetic_with_precedence() {
    assert_eq!(eval_fresh("1 + 2 * 3"), Ok(Some(7)));
    assert_eq!(eval_fresh("10 - 2 - 3"), Ok(Some(5)));
    assert_eq!(eval_fresh("7 / 2"), Ok(Some(3)));
}

#[test]
fn parentheses_change_the_value() {
    assert_eq!(eval_fresh("(1 + 2) * 3"), Ok(Some(9)));
}

#[test]
fn unary_prefix_operators() {
    assert_eq!(eval_fresh("-1 + 2"), Ok(Some(1)));
    assert_eq!(eval_fresh("+5"), Ok(Some(5)));
    assert_eq!(eval_fresh("--3"), Ok(Some(3)));
}

#[test]
fn division_truncates_toward_zero() {
    assert_eq!(eval_fresh("7 / -2"), Ok(Some(-3)));
    assert_eq!(eval_fresh("(0 - 7) / 2"), Ok(Some(-3)));
}

#[test]
fn conditional_picks_by_nonzero_condition() {
    assert_eq!(eval_fresh("1 ? 2 : 3"), Ok(Some(2)));
    assert_eq!(eval_fresh("0 ? 2 : 3"), Ok(Some(3)));
    assert_eq!(eval_fresh("5 ? 2 : 3"), Ok(Some(2)));
}

#[test]
fn conditional_evaluates_both_branches() {
    let mut vars = VarTable::new();
    assert_eq!(eval_in("1 ? (a < 2) : (b < 3)", &mut vars), Ok(Some(2)));
    assert_eq!(eval_in("a", &mut vars), Ok(Some(2)));
    assert_eq!(eval_in("b", &mut vars), Ok(Some(3)));
}

#[test]
fn assignment_stores_and_returns() {
    let mut vars = VarTable::new();
    assert_eq!(eval_in("x < 5", &mut vars), Ok(Some(5)));
    assert_eq!(eval_in("x + 1", &mut vars), Ok(Some(6)));
}

#[test]
fn assignment_overwrites() {
    let mut vars = VarTable::new();
    assert_eq!(eval_in("x < 5", &mut vars), Ok(Some(5)));
    assert_eq!(eval_in("x < 6", &mut vars), Ok(Some(6)));
    assert_eq!(eval_in("x", &mut vars), Ok(Some(6)));
}

#[test]
fn equality_and_comparison_return_zero_or_one() {
    assert_eq!(eval_fresh("3 = 3"), Ok(Some(1)));
    assert_eq!(eval_fresh("3 = 4"), Ok(Some(0)));
    assert_eq!(eval_fresh("3 > 5"), Ok(Some(0)));
    assert_eq!(eval_fresh("5 > 3"), Ok(Some(1)));
}

#[test]
fn unknown_variable_has_no_value() {
    assert_eq!(eval_fresh("y"), Ok(None));
}

#[test]
fn missing_second_operand_selects_unary_dispatch() {
    // The first operand defaults to 0; a missing second value makes the
    // node unary, so `+` hands the first operand back.
    assert_eq!(eval_fresh("y + 1"), Ok(Some(1)));
    assert_eq!(eval_fresh("1 + y"), Ok(Some(1)));
    assert_eq!(eval_fresh("1 - y"), Ok(Some(-1)));
}

#[test]
fn exponentiation() {
    assert_eq!(eval_fresh("2 ^ 10"), Ok(Some(1024)));
    assert_eq!(eval_fresh("2 ^ 0"), Ok(Some(1)));
    assert_eq!(eval_fresh("(-1) ^ 3"), Ok(Some(-1)));
    assert_eq!(eval_fresh("(-1) ^ 4"), Ok(Some(1)));
    assert_eq!(eval_fresh("2 ^ 31"), Err(EvalError::Overflow));
    // A negative right operand is reinterpreted as a huge unsigned
    // exponent, so any base of magnitude at least 2 overflows.
    assert_eq!(eval_fresh("2 ^ -1"), Err(EvalError::Overflow));
    assert_eq!(eval_fresh("1 ^ -1"), Ok(Some(1)));
}

#[test]
fn square_root_of_constructed_tree() {
    let mut vars = VarTable::new();
    let t = S::Unary('@', Box::new(S::Atom("10".to_string())));
    assert_eq!(compute(&t, &mut vars), Ok(Some(3)));
    let t9 = S::Unary('@', Box::new(S::Atom("9".to_string())));
    assert_eq!(compute(&t9, &mut vars), Ok(Some(3)));
    let tneg = S::Unary('@', Box::new(S::Atom("-4".to_string())));
    assert_eq!(compute(&tneg, &mut vars), Ok(Some(0)));
}

#[test]
fn division_by_zero_is_fatal() {
    assert_eq!(eval_fresh("1 / 0"), Err(EvalError::DivByZero));
}

#[test]
fn overflow_is_fatal() {
    assert_eq!(eval_fresh("2147483647 + 1"), Err(EvalError::Overflow));
    assert_eq!(eval_fresh("0 - 2147483647 - 2"), Err(EvalError::Overflow));
    assert_eq!(
        eval_fresh("(0 - 2147483647 - 1) / (0 - 1)"),
        Err(EvalError::Overflow)
    );
}

#[test]
fn negating_the_smallest_value_is_fatal() {
    let mut vars = VarTable::new();
    let t = S::Unary('-', Box::new(S::Atom("-2147483648".to_string())));
    assert_eq!(compute(&t, &mut vars), Err(EvalError::Overflow));
}

#[test]
fn operators_without_a_meaning_are_fatal() {
    assert_eq!(eval_fresh("2 : 3"), Err(EvalError::BadToken(':')));
    assert_eq!(eval_fresh("3!"), Err(EvalError::BadToken('!')));
    assert_eq!(eval_fresh("a[1]"), Err(EvalError::BadToken('[')));
    // `?` whose second child is no `:` node falls through to generic
    // dispatch, which has no rule for it.
    assert_eq!(eval_fresh("1 ? 2"), Err(EvalError::BadToken('?')));
}

#[test]
fn atoms_parse_as_integers_or_variables() {
    assert_eq!(eval_fresh("007"), Ok(Some(7)));
    let mut vars = VarTable::new();
    // Out of the 32-bit range: no integer, so it reads as a (never
    // assigned) variable name.
    assert_eq!(eval_in("2147483648", &mut vars), Ok(None));
    let signed = S::Atom("+12".to_string());
    assert_eq!(compute(&signed, &mut vars), Ok(Some(12)));
    assert_eq!(eval_in("(0 - 2147483647) - 1", &mut vars), Ok(Some(-2147483648)));
}

#[test]
fn variable_table_direct_access() {
    let mut vars = VarTable::new();
    assert_eq!(vars.get(&"k".to_string()), None);
    vars.set(&"k".to_string(), 41);
    assert_eq!(vars.get(&"k".to_string()), Some(41));
    vars.set(&"k".to_string(), 42);
    assert_eq!(vars.get(&"k".to_string()), Some(42));
}

#[test]
fn fatal_assignment_keeps_earlier_effects() {
    let mut vars = VarTable::new();
    // The right-hand side assigns before the division fails.
    assert_eq!(
        eval_in("z < ((w < 4) / 0)", &mut vars),
        Err(EvalError::DivByZero)
    );
    assert_eq!(eval_in("w", &mut vars), Ok(Some(4)));
    assert_eq!(eval_in("z", &mut vars), Ok(None));
}

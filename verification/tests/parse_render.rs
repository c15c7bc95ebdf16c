use pratt_calc::infixes::{infix_binding_power, postfix_binding_power, prefix_binding_power};
use pratt_calc::lexer::Lexer;
use pratt_calc::parser::expr;
use pratt_calc::token::Token;

fn render_of(input: &str) -> String {
    expr(input).expect("parse should succeed").render()
}

#[test]
fn tokenizer_groups_alnum_runs() {
    let mut lx = Lexer::new("abc123 + x1");
    assert_eq!(lx.next(), Token::Atom("abc123".to_string()));
    assert_eq!(lx.next(), Token::Op('+'));
    assert_eq!(lx.next(), Token::Atom("x1".to_string()));
    assert_eq!(lx.next(), Token::Eof);
}

#[test]
fn tokenizer_atom_text_is_identity() {
    let mut lx = Lexer::new("q7w8e9");
    match lx.next() {
        Token::Atom(t) => assert_eq!(t, "q7w8e9"),
        other => panic!("expected an atom, got {:?}", other),
    }
    assert_eq!(lx.next(), Token::Eof);
}

#[test]
fn tokenizer_peek_is_idempotent() {
    let mut lx = Lexer::new("1 + 2");
    assert_eq!(lx.peek(), Token::Atom("1".to_string()));
    assert_eq!(lx.peek(), Token::Atom("1".to_string()));
    assert_eq!(lx.next(), Token::Atom("1".to_string()));
    assert_eq!(lx.peek(), Token::Op('+'));
}

#[test]
fn tokenizer_empty_and_whitespace() {
    let mut lx = Lexer::new("");
    assert_eq!(lx.next(), Token::Eof);
    let mut lx2 = Lexer::new("   \t\r\n ");
    assert_eq!(lx2.next(), Token::Eof);
}

#[test]
fn binding_power_table() {
    assert_eq!(infix_binding_power('?'), Some((1, 2)));
    assert_eq!(infix_binding_power(':'), Some((3, 4)));
    assert_eq!(infix_binding_power('='), Some((5, 6)));
    assert_eq!(infix_binding_power('<'), Some((5, 6)));
    assert_eq!(infix_binding_power('>'), Some((5, 6)));
    assert_eq!(infix_binding_power('+'), Some((7, 8)));
    assert_eq!(infix_binding_power('-'), Some((7, 8)));
    assert_eq!(infix_binding_power('*'), Some((9, 10)));
    assert_eq!(infix_binding_power('/'), Some((9, 10)));
    assert_eq!(infix_binding_power('^'), Some((11, 12)));
    assert_eq!(infix_binding_power('%'), None);
    assert_eq!(prefix_binding_power('+'), ((), 13));
    assert_eq!(prefix_binding_power('-'), ((), 13));
    assert_eq!(postfix_binding_power('!'), Some((7, ())));
    assert_eq!(postfix_binding_power('['), Some((7, ())));
    assert_eq!(postfix_binding_power('+'), None);
}

#[test]
fn precedence_shapes_the_tree() {
    assert_eq!(render_of("1 + 2 * 3"), "(+ 1 (* 2 3))");
    assert_eq!(render_of("1 * 2 + 3"), "(+ (* 1 2) 3)");
    assert_eq!(render_of("a + b - c"), "(- (+ a b) c)");
    assert_eq!(render_of("2 * 2 ^ 3"), "(* 2 (^ 2 3))");
}

#[test]
fn unary_prefix_binds_tighter_than_infix() {
    assert_eq!(render_of("-1 + 2"), "(+ (- 1) 2)");
    assert_eq!(render_of("+5"), "(+ 5)");
    assert_eq!(render_of("--x"), "(- (- x))");
}

#[test]
fn parentheses_override_precedence() {
    assert_eq!(render_of("(1 + 2) * 3"), "(* (+ 1 2) 3)");
    assert_eq!(render_of("((0))"), "0");
}

#[test]
fn conditional_shape() {
    assert_eq!(render_of("1 ? 2 : 3"), "(? 1 (: 2 3))");
    assert_eq!(render_of("a ? b : c ? d : e"), "(? (? a (: b c)) (: d e))");
}

#[test]
fn assignment_and_comparison_shapes() {
    assert_eq!(render_of("x < 5"), "(< x 5)");
    assert_eq!(render_of("3 = 3"), "(= 3 3)");
    assert_eq!(render_of("3 > 5"), "(> 3 5)");
}

#[test]
fn postfix_shapes() {
    assert_eq!(render_of("3!"), "(! 3)");
    assert_eq!(render_of("a[1]"), "([ a 1)");
    assert_eq!(render_of("a[1 + 2]!"), "(! ([ a (+ 1 2)))");
}

#[test]
fn malformed_inputs_are_fatal() {
    assert!(expr("(1 + 2").is_err());
    assert!(expr("a[1").is_err());
    assert!(expr("1 2").is_err());
    assert!(expr("").is_err());
    assert!(expr("*").is_err());
    assert!(expr("( )").is_err());
}

#[test]
fn reparsing_a_rendered_leaf_gives_the_same_tree() {
    let t = expr("42").unwrap();
    let again = expr(&t.render()).unwrap();
    assert_eq!(t, again);
}

#[test]
fn reparsing_a_rendered_unary_tree_gives_the_same_tree() {
    let t = expr("-7").unwrap();
    assert_eq!(t.render(), "(- 7)");
    let again = expr(&t.render()).unwrap();
    assert_eq!(t, again);
}

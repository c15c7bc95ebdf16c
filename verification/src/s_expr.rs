//! The parse tree: an S-expression whose nodes carry one operator and one or
//! two ordered children, and its canonical textual rendering.

use vstd::prelude::*;
use vstd::string::StringExecFns;

verus! {

/// A parse tree.  A leaf holds the literal text of an atom token; an
/// operator node holds its operator symbol and its children.  The arity is
/// fixed by the production that built the node: prefix and ordinary postfix
/// operators yield one child, infix and the bracket form yield two.
#[derive(Debug, PartialEq, Eq)]
pub enum S {
    Atom(String),
    Unary(char, Box<S>),
    Binary(char, Box<S>, Box<S>),
}

/// The mathematical value of a tree: the same shape over character
/// sequences.
pub enum SView {
    Atom(Seq<char>),
    Unary(char, Box<SView>),
    Binary(char, Box<SView>, Box<SView>),
}

/// The view of a tree, taken leaf by leaf.
pub open spec fn s_view(s: &S) -> SView
    decreases s,
{
    match s {
        S::Atom(t) => SView::Atom(t@),
        S::Unary(op, a) => SView::Unary(*op, Box::new(s_view(&**a))),
        S::Binary(op, a, b) => SView::Binary(*op, Box::new(s_view(&**a)), Box::new(s_view(&**b))),
    }
}

impl View for S {
    type V = SView;

    open spec fn view(&self) -> SView {
        s_view(self)
    }
}

/// The canonical rendering: an atom is its text; a node is `(`, the
/// operator, each child in order, `)`, space-separated.
pub open spec fn spec_render(t: SView) -> Seq<char>
    decreases t,
{
    match t {
        SView::Atom(s) => s,
        SView::Unary(op, a) => seq!['(', op, ' '] + spec_render(*a) + seq![')'],
        SView::Binary(op, a, b) => seq!['(', op, ' '] + spec_render(*a) + seq![' ']
            + spec_render(*b) + seq![')'],
    }
}

/// Relies on `String::push`: appends one character at the end of the string.
#[verifier::external_body]
fn push_char(s: &mut String, c: char)
    ensures
        final(s)@ == old(s)@.push(c),
{
    s.push(c);
}

impl S {
    /// Renders the tree in its canonical textual form, e.g. `(+ 1 (* 2 3))`.
    pub fn render(&self) -> (r: String)
        ensures
            r@ == spec_render(self@),
        decreases self,
    {
        match self {
            S::Atom(t) => t.clone(),
            S::Unary(op, a) => {
                let mut r = String::new();
                push_char(&mut r, '(');
                push_char(&mut r, *op);
                push_char(&mut r, ' ');
                let ra = a.render();
                r.append(ra.as_str());
                push_char(&mut r, ')');
                proof {
                    assert(r@ =~= spec_render(self@));
                }
                r
            },
            S::Binary(op, a, b) => {
                let mut r = String::new();
                push_char(&mut r, '(');
                push_char(&mut r, *op);
                push_char(&mut r, ' ');
                let ra = a.render();
                r.append(ra.as_str());
                push_char(&mut r, ' ');
                let rb = b.render();
                r.append(rb.as_str());
                push_char(&mut r, ')');
                proof {
                    assert(r@ =~= spec_render(self@));
                }
                r
            },
        }
    }
}

} // verus!

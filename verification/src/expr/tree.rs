//! Syntax trees of arithmetic expressions.

use crate::expr::token::Op;
use vstd::prelude::*;

verus! {

/// An owned syntax tree.
pub type Tree = Box<Node>;

/// A node of a syntax tree.
#[derive(Debug, PartialEq)]
pub enum Node {
    /// An expression in parentheses.
    Par(Box<Node>),
    /// A binary operation.
    Expr { op: Op, left: Tree, right: Tree },
    /// A number, as written.
    Number(String),
}

/// What a `Node` is, mathematically.
pub enum NodeView {
    Par(Box<NodeView>),
    Expr { op: Op, left: Box<NodeView>, right: Box<NodeView> },
    Number(Seq<char>),
}

/// The mathematical tree that `node` stands for.
pub open spec fn node_view(node: Node) -> NodeView
    decreases node,
{
    match node {
        Node::Par(inner) => NodeView::Par(Box::new(node_view(*inner))),
        Node::Expr { op, left, right } => NodeView::Expr {
            op,
            left: Box::new(node_view(*left)),
            right: Box::new(node_view(*right)),
        },
        Node::Number(digits) => NodeView::Number(digits@),
    }
}

impl View for Node {
    type V = NodeView;

    open spec fn view(&self) -> NodeView {
        node_view(*self)
    }
}

/// The character that an operator is written as.
pub open spec fn symbol_of(op: Op) -> char {
    match op {
        Op::Add => '+',
        Op::Sub => '-',
        Op::Mul => '*',
        Op::Div => '/',
    }
}

/// The text that a tree is written as: operands around their operator,
/// parentheses where the tree has them, numbers as they were written, and
/// nothing in between.
pub open spec fn text_of(tree: NodeView) -> Seq<char>
    decreases tree,
{
    match tree {
        NodeView::Par(inner) => seq!['('] + text_of(*inner) + seq![')'],
        NodeView::Expr { op, left, right } => text_of(*left) + seq![symbol_of(op)] + text_of(
            *right,
        ),
        NodeView::Number(digits) => digits,
    }
}

/// Appends the text of `tree` to `out`.
fn write_tree(tree: &Node, out: &mut Vec<char>)
    ensures
        final(out)@ == old(out)@ + text_of(tree@),
    decreases tree,
{
    match tree {
        Node::Par(inner) => {
            out.push('(');
            write_tree(inner, out);
            out.push(')');
            assert(out@ =~= old(out)@ + text_of(tree@));
        },
        Node::Expr { op, left, right } => {
            write_tree(left, out);
            out.push(op.symbol());
            write_tree(right, out);
            assert(out@ =~= old(out)@ + text_of(tree@));
        },
        Node::Number(digits) => {
            let text = digits.as_str();
            let ghost before = out@;
            for ch in it: text.chars()
                invariant
                    it.seq() == text@,
                    out@ == before + text@.take(it.index()),
            {
                out.push(ch);
                assert(text@.take(it.index() + 1) =~= text@.take(it.index()).push(ch));
            }
            assert(text@.take(text@.len() as int) =~= text@);
        },
    }
}

/// The text that `tree` is written as.
pub fn tree_text(tree: &Tree) -> (r: Vec<char>)
    ensures
        r@ == text_of(tree@),
{
    let mut out: Vec<char> = Vec::new();
    write_tree(tree, &mut out);
    assert(Seq::<char>::empty() + text_of(tree@) =~= text_of(tree@));
    out
}

} // verus!

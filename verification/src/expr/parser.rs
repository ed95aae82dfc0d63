//! A recursive-descent parser for the grammar
//!
//! ```text
//! Expr   := Term Expr1
//! Expr1  := ('+' | '-') Term Expr1 | Empty
//! Term   := Factor Term1
//! Term1  := ('*' | '/') Factor Term1 | Empty
//! Factor := '(' Expr ')' | Number
//! ```
//!
//! Operators of one level group to the left.

use crate::expr::token::{op_of, views, Op, ParseError, Token, TokenView};
use crate::expr::tree::{Node, NodeView, Tree};
use vstd::prelude::*;

verus! {

/// What a parse gives: the tree or the failure, and the position of the
/// first token that it did not take.
pub type Parsed = (Result<NodeView, ParseError>, int);

/// The token at `pos`; `END` beyond the last token.
pub open spec fn peek(tokens: Seq<TokenView>, pos: int) -> TokenView {
    if 0 <= pos < tokens.len() {
        tokens[pos]
    } else {
        TokenView::END
    }
}

/// Whether a parse that started at `pos` and stopped at `next` took a token.
/// `lemma_progress` shows that every successful parse of a term or a factor
/// does; the definitions below ask for it so that they are well founded.
pub open spec fn advances(tokens: Seq<TokenView>, pos: int, next: int) -> bool {
    pos < next <= tokens.len()
}

/// Whether `token` is `+` or `-`.
pub open spec fn is_additive(token: TokenView) -> bool {
    token is ADD || token is SUB
}

/// Whether `token` is `*` or `/`.
pub open spec fn is_multiplicative(token: TokenView) -> bool {
    token is MUL || token is DIV
}

/// The binary node of `op` over `left` and `right`.
pub open spec fn binary(op: Op, left: NodeView, right: NodeView) -> NodeView {
    NodeView::Expr { op, left: Box::new(left), right: Box::new(right) }
}

/// Parses `Factor` at `pos`.
pub open spec fn factor_at(tokens: Seq<TokenView>, pos: int) -> Parsed
    decreases tokens.len() - pos, 0int,
{
    match peek(tokens, pos) {
        TokenView::LPAR => {
            let (inner, next) = expr_at(tokens, pos + 1);
            match inner {
                Err(e) => (Err(e), next),
                Ok(inner) => if peek(tokens, next) is RPAR {
                    (Ok(NodeView::Par(Box::new(inner))), next + 1)
                } else {
                    (Err(ParseError::RparExpected), next)
                },
            }
        },
        TokenView::NUMBER(digits) => (Ok(NodeView::Number(digits)), pos + 1),
        _ => (Err(ParseError::FactorExpected), pos),
    }
}

/// Parses `Term1` at `pos`, with `left` as what was read of the term so far.
pub open spec fn term1_at(tokens: Seq<TokenView>, pos: int, left: NodeView) -> Parsed
    decreases tokens.len() - pos, 1int,
{
    if is_multiplicative(peek(tokens, pos)) {
        let (right, next) = factor_at(tokens, pos + 1);
        match right {
            Err(e) => (Err(e), next),
            Ok(right) => if advances(tokens, pos, next) {
                term1_at(tokens, next, binary(op_of(peek(tokens, pos)).unwrap(), left, right))
            } else {
                (Err(ParseError::FactorExpected), next)
            },
        }
    } else {
        (Ok(left), pos)
    }
}

/// Parses `Term` at `pos`.
pub open spec fn term_at(tokens: Seq<TokenView>, pos: int) -> Parsed
    decreases tokens.len() - pos, 2int,
{
    let (left, next) = factor_at(tokens, pos);
    match left {
        Err(e) => (Err(e), next),
        Ok(left) => if advances(tokens, pos, next) {
            term1_at(tokens, next, left)
        } else {
            (Err(ParseError::FactorExpected), next)
        },
    }
}

/// Parses `Expr1` at `pos`, with `left` as what was read of the expression so
/// far.
pub open spec fn expr1_at(tokens: Seq<TokenView>, pos: int, left: NodeView) -> Parsed
    decreases tokens.len() - pos, 3int,
{
    if is_additive(peek(tokens, pos)) {
        let (right, next) = term_at(tokens, pos + 1);
        match right {
            Err(e) => (Err(e), next),
            Ok(right) => if advances(tokens, pos, next) {
                expr1_at(tokens, next, binary(op_of(peek(tokens, pos)).unwrap(), left, right))
            } else {
                (Err(ParseError::FactorExpected), next)
            },
        }
    } else {
        (Ok(left), pos)
    }
}

/// Parses `Expr` at `pos`.
pub open spec fn expr_at(tokens: Seq<TokenView>, pos: int) -> Parsed
    decreases tokens.len() - pos, 4int,
{
    let (left, next) = term_at(tokens, pos);
    match left {
        Err(e) => (Err(e), next),
        Ok(left) => if advances(tokens, pos, next) {
            expr1_at(tokens, next, left)
        } else {
            (Err(ParseError::FactorExpected), next)
        },
    }
}

/// A parse stops at or after the position where it started and not beyond
/// the end of the tokens, and one that gives a factor, a term or an
/// expression has taken a token.
pub proof fn lemma_progress(tokens: Seq<TokenView>, pos: int)
    requires
        0 <= pos <= tokens.len(),
    ensures
        pos <= factor_at(tokens, pos).1 <= tokens.len(),
        pos <= term_at(tokens, pos).1 <= tokens.len(),
        pos <= expr_at(tokens, pos).1 <= tokens.len(),
        factor_at(tokens, pos).0 is Ok ==> advances(tokens, pos, factor_at(tokens, pos).1),
        term_at(tokens, pos).0 is Ok ==> advances(tokens, pos, term_at(tokens, pos).1),
        expr_at(tokens, pos).0 is Ok ==> advances(tokens, pos, expr_at(tokens, pos).1),
    decreases tokens.len() - pos, 1int,
{
    if peek(tokens, pos) is LPAR {
        lemma_progress(tokens, pos + 1);
    }
    let (left, next) = factor_at(tokens, pos);
    if left is Ok {
        lemma_progress_tail(tokens, next, left.unwrap());
    }
    let (left, next) = term_at(tokens, pos);
    if left is Ok {
        lemma_progress_tail(tokens, next, left.unwrap());
    }
}

/// The rest of a term or of an expression stops at or after the position
/// where it started and not beyond the end of the tokens.
pub proof fn lemma_progress_tail(tokens: Seq<TokenView>, pos: int, left: NodeView)
    requires
        0 <= pos <= tokens.len(),
    ensures
        pos <= term1_at(tokens, pos, left).1 <= tokens.len(),
        pos <= expr1_at(tokens, pos, left).1 <= tokens.len(),
    decreases tokens.len() - pos, 0int,
{
    if is_multiplicative(peek(tokens, pos)) {
        lemma_progress(tokens, pos + 1);
        let (right, next) = factor_at(tokens, pos + 1);
        if right is Ok {
            lemma_progress_tail(
                tokens,
                next,
                binary(op_of(peek(tokens, pos)).unwrap(), left, right.unwrap()),
            );
        }
    }
    if is_additive(peek(tokens, pos)) {
        lemma_progress(tokens, pos + 1);
        let (right, next) = term_at(tokens, pos + 1);
        if right is Ok {
            lemma_progress_tail(
                tokens,
                next,
                binary(op_of(peek(tokens, pos)).unwrap(), left, right.unwrap()),
            );
        }
    }
}

/// The token that an operator is written as.
pub open spec fn token_of(op: Op) -> TokenView {
    match op {
        Op::Add => TokenView::ADD,
        Op::Sub => TokenView::SUB,
        Op::Mul => TokenView::MUL,
        Op::Div => TokenView::DIV,
    }
}

/// The tokens that a tree is written as, left to right.
pub open spec fn tokens_in(tree: NodeView) -> Seq<TokenView>
    decreases tree,
{
    match tree {
        NodeView::Par(inner) => seq![TokenView::LPAR] + tokens_in(*inner) + seq![TokenView::RPAR],
        NodeView::Expr { op, left, right } => tokens_in(*left) + seq![token_of(op)] + tokens_in(
            *right,
        ),
        NodeView::Number(digits) => seq![TokenView::NUMBER(digits)],
    }
}

/// The tree that a parse gives is written as exactly the tokens that the
/// parse took: none is dropped, added or moved.
pub proof fn lemma_parse_spells(tokens: Seq<TokenView>, pos: int)
    requires
        0 <= pos <= tokens.len(),
    ensures
        factor_at(tokens, pos).0 matches Ok(tree) ==> tokens_in(tree) == tokens.subrange(
            pos,
            factor_at(tokens, pos).1,
        ),
        term_at(tokens, pos).0 matches Ok(tree) ==> tokens_in(tree) == tokens.subrange(
            pos,
            term_at(tokens, pos).1,
        ),
        expr_at(tokens, pos).0 matches Ok(tree) ==> tokens_in(tree) == tokens.subrange(
            pos,
            expr_at(tokens, pos).1,
        ),
    decreases tokens.len() - pos, 1int,
{
    lemma_progress(tokens, pos);
    if peek(tokens, pos) is LPAR {
        lemma_progress(tokens, pos + 1);
        lemma_parse_spells(tokens, pos + 1);
        let (inner, next) = expr_at(tokens, pos + 1);
        if inner is Ok && peek(tokens, next) is RPAR {
            assert(seq![TokenView::LPAR] + tokens.subrange(pos + 1, next) + seq![TokenView::RPAR]
                =~= tokens.subrange(pos, next + 1));
        }
    } else if peek(tokens, pos) is NUMBER {
        assert(seq![tokens[pos]] =~= tokens.subrange(pos, pos + 1));
    }
    let (left, next) = factor_at(tokens, pos);
    if left is Ok {
        lemma_parse_tail_spells(tokens, pos, next, left.unwrap());
    }
    let (left, next) = term_at(tokens, pos);
    if left is Ok {
        lemma_parse_tail_spells(tokens, pos, next, left.unwrap());
    }
}

/// The rest of a term or of an expression adds to the tree exactly the
/// tokens that it takes.
pub proof fn lemma_parse_tail_spells(tokens: Seq<TokenView>, start: int, pos: int, left: NodeView)
    requires
        0 <= start <= pos <= tokens.len(),
        tokens_in(left) == tokens.subrange(start, pos),
    ensures
        term1_at(tokens, pos, left).0 matches Ok(tree) ==> tokens_in(tree) == tokens.subrange(
            start,
            term1_at(tokens, pos, left).1,
        ),
        expr1_at(tokens, pos, left).0 matches Ok(tree) ==> tokens_in(tree) == tokens.subrange(
            start,
            expr1_at(tokens, pos, left).1,
        ),
    decreases tokens.len() - pos, 0int,
{
    if is_multiplicative(peek(tokens, pos)) {
        lemma_progress(tokens, pos + 1);
        lemma_parse_spells(tokens, pos + 1);
        let (right, next) = factor_at(tokens, pos + 1);
        if right is Ok {
            let joined = binary(op_of(peek(tokens, pos)).unwrap(), left, right.unwrap());
            assert(tokens_in(joined) =~= tokens.subrange(start, next));
            lemma_parse_tail_spells(tokens, start, next, joined);
        }
    }
    if is_additive(peek(tokens, pos)) {
        lemma_progress(tokens, pos + 1);
        lemma_parse_spells(tokens, pos + 1);
        let (right, next) = term_at(tokens, pos + 1);
        if right is Ok {
            let joined = binary(op_of(peek(tokens, pos)).unwrap(), left, right.unwrap());
            assert(tokens_in(joined) =~= tokens.subrange(start, next));
            lemma_parse_tail_spells(tokens, start, next, joined);
        }
    }
}

/// A parser over a slice of tokens, with the position of the next token to
/// read.
pub struct Parser<'a> {
    tokens: &'a [Token],
    current: usize,
}

impl<'a> Parser<'a> {
    /// The tokens that the parser reads.
    pub closed spec fn tokens(&self) -> Seq<TokenView> {
        views(self.tokens@)
    }

    /// The position of the next token to read.
    pub closed spec fn position(&self) -> int {
        self.current as int
    }

    /// A parser at the first of `tokens`.
    pub fn new(tokens: &'a [Token]) -> (r: Self)
        ensures
            r.tokens() == views(tokens@),
            r.position() == 0,
    {
        Self { tokens, current: 0 }
    }

    /// The position of the next token to read.
    pub fn current(&self) -> (r: usize)
        ensures
            r == self.position(),
    {
        self.current
    }

    /// The next token to read, if the parser is not beyond the last one.
    pub fn current_token(&self) -> (r: Option<&Token>)
        ensures
            match r {
                Some(token) => 0 <= self.position() < self.tokens().len() && token@ == peek(
                    self.tokens(),
                    self.position(),
                ),
                None => self.position() >= self.tokens().len(),
            },
    {
        if self.current < self.tokens.len() {
            Some(&self.tokens[self.current])
        } else {
            None
        }
    }

    /// Parses `Expr` at the current position and stops behind it, or at the
    /// token that is in the way.
    pub fn expr(&mut self) -> (r: Result<Tree, ParseError>)
        ensures
            final(self).tokens() == old(self).tokens(),
            final(self).position() == expr_at(old(self).tokens(), old(self).position()).1,
            match r {
                Ok(tree) => expr_at(old(self).tokens(), old(self).position()).0 == Ok::<
                    NodeView,
                    ParseError,
                >(tree@),
                Err(e) => expr_at(old(self).tokens(), old(self).position()).0 == Err::<
                    NodeView,
                    ParseError,
                >(e),
            },
        decreases old(self).tokens().len() - old(self).position(), 4int,
    {
        proof {
            if self.position() <= self.tokens().len() {
                lemma_progress(self.tokens(), self.position());
            }
        }
        let term = match self.term() {
            Ok(term) => term,
            Err(e) => {
                return Err(e);
            },
        };
        self.expr1(term)
    }

    /// Parses `Expr1` at the current position, with `left` as what was read
    /// of the expression so far.
    pub fn expr1(&mut self, left: Tree) -> (r: Result<Tree, ParseError>)
        ensures
            final(self).tokens() == old(self).tokens(),
            final(self).position() == expr1_at(old(self).tokens(), old(self).position(), left@).1,
            match r {
                Ok(tree) => expr1_at(old(self).tokens(), old(self).position(), left@).0 == Ok::<
                    NodeView,
                    ParseError,
                >(tree@),
                Err(e) => expr1_at(old(self).tokens(), old(self).position(), left@).0 == Err::<
                    NodeView,
                    ParseError,
                >(e),
            },
        decreases old(self).tokens().len() - old(self).position(), 3int,
    {
        if self.current >= self.tokens.len() {
            return Ok(left);
        }
        let token = &self.tokens[self.current];
        assert(token@ == peek(self.tokens(), self.position()));
        if matches!(token, Token::ADD | Token::SUB) {
            let op = match Op::from_token(token) {
                Ok(op) => op,
                Err(e) => {
                    return Err(e);
                },
            };
            self.current += 1;
            proof {
                lemma_progress(self.tokens(), self.position());
            }
            let term = match self.term() {
                Ok(term) => term,
                Err(e) => {
                    return Err(e);
                },
            };
            let t = Box::new(Node::Expr { op, left, right: term });
            self.expr1(t)
        } else {
            Ok(left)
        }
    }

    /// Parses `Term` at the current position.
    pub fn term(&mut self) -> (r: Result<Tree, ParseError>)
        ensures
            final(self).tokens() == old(self).tokens(),
            final(self).position() == term_at(old(self).tokens(), old(self).position()).1,
            match r {
                Ok(tree) => term_at(old(self).tokens(), old(self).position()).0 == Ok::<
                    NodeView,
                    ParseError,
                >(tree@),
                Err(e) => term_at(old(self).tokens(), old(self).position()).0 == Err::<
                    NodeView,
                    ParseError,
                >(e),
            },
        decreases old(self).tokens().len() - old(self).position(), 2int,
    {
        proof {
            if self.position() <= self.tokens().len() {
                lemma_progress(self.tokens(), self.position());
            }
        }
        let factor = match self.factor() {
            Ok(factor) => factor,
            Err(e) => {
                return Err(e);
            },
        };
        self.term1(factor)
    }

    /// Parses `Term1` at the current position, with `left` as what was read
    /// of the term so far.
    pub fn term1(&mut self, left: Tree) -> (r: Result<Tree, ParseError>)
        ensures
            final(self).tokens() == old(self).tokens(),
            final(self).position() == term1_at(old(self).tokens(), old(self).position(), left@).1,
            match r {
                Ok(tree) => term1_at(old(self).tokens(), old(self).position(), left@).0 == Ok::<
                    NodeView,
                    ParseError,
                >(tree@),
                Err(e) => term1_at(old(self).tokens(), old(self).position(), left@).0 == Err::<
                    NodeView,
                    ParseError,
                >(e),
            },
        decreases old(self).tokens().len() - old(self).position(), 1int,
    {
        if self.current >= self.tokens.len() {
            return Ok(left);
        }
        let token = &self.tokens[self.current];
        assert(token@ == peek(self.tokens(), self.position()));
        if matches!(token, Token::MUL | Token::DIV) {
            let op = match Op::from_token(token) {
                Ok(op) => op,
                Err(e) => {
                    return Err(e);
                },
            };
            self.current += 1;
            proof {
                lemma_progress(self.tokens(), self.position());
            }
            let factor = match self.factor() {
                Ok(factor) => factor,
                Err(e) => {
                    return Err(e);
                },
            };
            let t = Box::new(Node::Expr { op, left, right: factor });
            self.term1(t)
        } else {
            Ok(left)
        }
    }

    /// Parses `Factor` at the current position.
    pub fn factor(&mut self) -> (r: Result<Tree, ParseError>)
        ensures
            final(self).tokens() == old(self).tokens(),
            final(self).position() == factor_at(old(self).tokens(), old(self).position()).1,
            match r {
                Ok(tree) => factor_at(old(self).tokens(), old(self).position()).0 == Ok::<
                    NodeView,
                    ParseError,
                >(tree@),
                Err(e) => factor_at(old(self).tokens(), old(self).position()).0 == Err::<
                    NodeView,
                    ParseError,
                >(e),
            },
        decreases old(self).tokens().len() - old(self).position(), 0int,
    {
        if self.current >= self.tokens.len() {
            return Err(ParseError::FactorExpected);
        }
        let token = &self.tokens[self.current];
        assert(token@ == peek(self.tokens(), self.position()));
        match token {
            Token::LPAR => {
                self.current += 1;
                proof {
                    lemma_progress(self.tokens(), self.position());
                }
                let expr = match self.expr() {
                    Ok(expr) => expr,
                    Err(e) => {
                        return Err(e);
                    },
                };
                if self.current < self.tokens.len() && matches!(
                    &self.tokens[self.current],
                    Token::RPAR
                ) {
                    self.current += 1;
                    Ok(Box::new(Node::Par(expr)))
                } else {
                    Err(ParseError::RparExpected)
                }
            },
            Token::NUMBER(num) => {
                self.current += 1;
                Ok(Box::new(Node::Number(num.clone())))
            },
            _ => Err(ParseError::FactorExpected),
        }
    }
}

} // verus!

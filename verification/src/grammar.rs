//! What the parser does, as functions on values: the state of the parser,
//! the steps on its two stacks, and the grammar
//!
//! ```text
//! E --> P { BinOp P | PostfixOp }
//! P --> "(" E ")" | PrefixOp P | Ident "(" E ")" | Ident | Number
//! ```
//!
//! read with one token of lookahead.

use crate::ast::{Tree, TreeType};
use crate::error::ParseErrorView;
use crate::lexer::{lemma_next_token_consumes, LexerState, TokenKind, TokenView};
use crate::operators::{binds_tighter, lookup, sentinel, Op, OpType};
use crate::text::decimal;
use vstd::prelude::*;

verus! {

/// How a token is named in a message.
pub open spec fn describe(kind: TokenKind) -> Seq<char> {
    match kind {
        TokenKind::Number(lit) => "Number("@ + lit + ")"@,
        TokenKind::Ident(name) => "Ident(\""@ + name + "\")"@,
        TokenKind::OpSingle(ch) => "OpSingle('"@.push(ch) + "')"@,
        TokenKind::End => "End"@,
    }
}

/// The message of the error for the token `found` where `expected` had to stand.
pub open spec fn expected_message(expected: Seq<char>, found: TokenView) -> Seq<char> {
    "Expected "@ + expected + ", but got "@ + describe(found.typ) + " at position "@ + decimal(
        found.pos as nat,
    )
}

/// The error for the token `found` where the token `kind` had to end an expression.
pub open spec fn token_expected(kind: TokenKind, found: TokenView) -> ParseErrorView {
    ParseErrorView::Parse(expected_message(describe(kind) + " of expression"@, found))
}

/// The error for the token `found` where an operand had to start.
pub open spec fn operand_expected(found: TokenView) -> ParseErrorView {
    ParseErrorView::Parse(expected_message("operand"@, found))
}

/// What the parser holds between two steps.
pub struct ParserState {
    /// The lexer behind the lookahead token.
    pub lexer: LexerState,
    /// The lookahead token.
    pub next: TokenView,
    /// The operator stack: operators with their positions, the top last.
    pub ops: Seq<(Op, u32)>,
    /// The expression stack: finished subtrees, the top last.
    pub exps: Seq<Tree>,
}

/// How a parse ended early: the error, and the state that the parser was
/// left in.
pub struct Failure {
    pub error: ParseErrorView,
    pub state: ParserState,
}

/// A parser state, or how the parse ended early.
pub type Parsed = Result<ParserState, Failure>;

impl ParserState {
    /// A bound on the steps that are left: it counts the characters not yet
    /// consumed, and one more while the lookahead is a single character.
    pub open spec fn weight(self) -> nat {
        self.lexer.rest.len() + if self.next.typ is OpSingle {
            1nat
        } else {
            0nat
        }
    }

    /// The state with one more subtree on the expression stack.
    pub open spec fn with_exp(self, typ: TreeType, pos: u32) -> ParserState {
        ParserState { exps: self.exps.push(Tree { typ, pos }), ..self }
    }

    /// The state with one more entry on the operator stack.
    pub open spec fn with_op(self, op: Op, pos: u32) -> ParserState {
        ParserState { ops: self.ops.push((op, pos)), ..self }
    }

    /// Whether the operator on top of the stack can be applied: it is no
    /// marker, and the expression stack holds its operands.
    pub open spec fn can_reduce(self) -> bool {
        self.ops.len() > 0 && match self.ops.last().0.typ {
            OpType::Binary => self.exps.len() >= 2,
            OpType::Prefix => self.exps.len() >= 1,
            OpType::Postfix => self.exps.len() >= 1,
            OpType::Sentinel => false,
        }
    }

    /// Applies the operator on top of the stack: it leaves the stack, and its
    /// operands on top of the expression stack give way to the node that
    /// joins them, at the operator's position. Of two operands the one pushed
    /// earlier is the left one.
    pub open spec fn reduce(self) -> ParserState {
        let (op, pos) = self.ops.last();
        let ops = self.ops.drop_last();
        let right = self.exps.last();
        let below = self.exps.drop_last();
        match op.typ {
            OpType::Binary => ParserState {
                ops,
                exps: below.drop_last().push(
                    Tree {
                        typ: TreeType::Binary(op.ch, Box::new(below.last()), Box::new(right)),
                        pos,
                    },
                ),
                ..self
            },
            OpType::Prefix => ParserState {
                ops,
                exps: below.push(Tree { typ: TreeType::Prefix(op.ch, Box::new(right)), pos }),
                ..self
            },
            OpType::Postfix => ParserState {
                ops,
                exps: below.push(Tree { typ: TreeType::Postfix(op.ch, Box::new(right)), pos }),
                ..self
            },
            OpType::Sentinel => self,
        }
    }

    /// Whether `op` can be pushed: every operator that has to be applied
    /// first finds its operands.
    pub open spec fn can_push(self, op: Op) -> bool
        decreases self.ops.len(),
    {
        self.ops.len() > 0 && (binds_tighter(self.ops.last().0, op) ==> self.can_reduce()
            && self.reduce().can_push(op))
    }

    /// Pushes `op`: as long as the operator on top of the stack binds tighter
    /// than `op`, that operator is applied; then `op` goes on the stack.
    pub open spec fn push_operator(self, op: Op, pos: u32) -> ParserState
        decreases self.ops.len(),
    {
        if self.ops.len() > 0 && binds_tighter(self.ops.last().0, op) && self.can_reduce() {
            self.reduce().push_operator(op, pos)
        } else {
            self.with_op(op, pos)
        }
    }

    /// Applies the operators on top of the stack down to the nearest marker.
    pub open spec fn drain(self) -> ParserState
        decreases self.ops.len(),
    {
        if self.can_reduce() {
            self.reduce().drain()
        } else {
            self
        }
    }

    /// Takes the next token from the lexer as the lookahead. Where the lexer
    /// fails, its error ends the parse, and the lookahead stays.
    pub open spec fn consume(self) -> Parsed {
        match self.lexer.next_token() {
            (Ok(token), lexer) => Ok(ParserState { lexer, next: token, ..self }),
            (Err(error), lexer) => Err(Failure { error, state: ParserState { lexer, ..self } }),
        }
    }

    /// Consumes the lookahead if it is the token `kind`; fails otherwise, and
    /// then changes nothing.
    pub open spec fn expect(self, kind: TokenKind) -> Parsed {
        if self.next.typ == kind {
            self.consume()
        } else {
            Err(Failure { error: token_expected(kind, self.next), state: self })
        }
    }

    /// Whether no operand starts with the lookahead: it is the end of the
    /// text, or a single character that neither opens a parenthesis nor is a
    /// prefix operator.
    pub open spec fn starts_no_operand(self) -> bool {
        match self.next.typ {
            TokenKind::OpSingle(ch) => ch != '(' && lookup(ch, OpType::Prefix) is None,
            TokenKind::End => true,
            _ => false,
        }
    }

    /// The failure for a lookahead with which no operand starts: nothing is
    /// changed.
    pub open spec fn no_operand(self) -> Failure {
        Failure { error: operand_expected(self.next), state: self }
    }

    /// Parses an expression `E`: a primary, then binary operators each with a
    /// primary, and postfix operators; at the end the operators of this
    /// expression are applied, down to the nearest marker.
    ///
    /// The test on `weight` always succeeds (`lemma_parse_p`): it shows that
    /// the definition ends.
    pub open spec fn parse_e(self) -> Parsed
        decreases self.weight(), 4nat,
    {
        match self.parse_p() {
            Ok(s) => if s.weight() <= self.weight() {
                match s.parse_ops() {
                    Ok(t) => Ok(t.drain()),
                    Err(e) => Err(e),
                }
            } else {
                Ok(s)
            },
            Err(e) => Err(e),
        }
    }

    /// Parses what follows a primary, `{ BinOp P | PostfixOp }`: one such
    /// part after the other, as long as there is one.
    ///
    /// The test on `weight` always succeeds (`lemma_parse_op`): it shows that
    /// the definition ends.
    pub open spec fn parse_ops(self) -> Parsed
        decreases self.weight(), 3nat,
    {
        match self.parse_op() {
            Some(Ok(s)) => if s.weight() < self.weight() {
                s.parse_ops()
            } else {
                Ok(s)
            },
            Some(Err(e)) => Err(e),
            None => Ok(self),
        }
    }

    /// Parses one part `BinOp P` or `PostfixOp`, if the lookahead starts one:
    /// a binary operator is pushed and a primary parsed; a postfix operator
    /// is pushed and applied at once. With any other lookahead there is no
    /// such part, and the result is `None`.
    pub open spec fn parse_op(self) -> Option<Parsed>
        decreases self.weight(), 2nat,
        via Self::parse_op_decreases
    {
        match self.next.typ {
            TokenKind::OpSingle(ch) => {
                if let Some(op) = lookup(ch, OpType::Binary) {
                    match self.push_operator(op, self.next.pos).consume() {
                        Ok(s) => Some(s.parse_p()),
                        Err(e) => Some(Err(e)),
                    }
                } else if let Some(op) = lookup(ch, OpType::Postfix) {
                    Some(self.push_operator(op, self.next.pos).reduce().consume())
                } else {
                    None
                }
            },
            _ => None,
        }
    }

    /// Parses a primary `P`. A number or an identifier becomes a leaf. An
    /// identifier before `(` is the name of a function call, whose argument
    /// is the expression in the parentheses. `(` opens an expression in
    /// parentheses. A prefix operator goes on the operator stack as it is: an
    /// operand is expected where it stands, so no operator on the stack has
    /// its operands yet. Its operand is the primary that follows. Any other
    /// token is an error.
    pub open spec fn parse_p(self) -> Parsed
        decreases self.weight(), 1nat,
        via Self::parse_p_decreases
    {
        let pos = self.next.pos;
        match self.next.typ {
            TokenKind::Number(lit) => self.with_exp(TreeType::Number(lit), pos).consume(),
            TokenKind::Ident(name) => match self.consume() {
                Ok(s) => if s.next.typ == TokenKind::OpSingle('(') {
                    match s.parse_parens(pos) {
                        Ok(t) => Ok(t.0.with_exp(TreeType::Func(name, Box::new(t.1)), pos)),
                        Err(e) => Err(e),
                    }
                } else {
                    Ok(s.with_exp(TreeType::Ident(name), pos))
                },
                Err(e) => Err(e),
            },
            TokenKind::OpSingle(ch) => if ch == '(' {
                match self.parse_parens(pos) {
                    Ok(t) => Ok(t.0.with_exp(TreeType::Parens(Box::new(t.1)), pos)),
                    Err(e) => Err(e),
                }
            } else if let Some(op) = lookup(ch, OpType::Prefix) {
                match self.with_op(op, pos).consume() {
                    Ok(s) => s.parse_p(),
                    Err(e) => Err(e),
                }
            } else {
                Err(self.no_operand())
            },
            TokenKind::End => Err(self.no_operand()),
        }
    }

    /// Parses `"(" E ")"`: `(` is expected, a marker with the position `pos`
    /// is pushed, the expression parsed, `)` expected, and the marker taken
    /// off again. The result is the state without the subtree of
    /// the expression, and that subtree.
    pub open spec fn parse_parens(self, pos: u32) -> Result<(ParserState, Tree), Failure>
        decreases self.weight(), 0nat,
        via Self::parse_parens_decreases
    {
        match self.expect(TokenKind::OpSingle('(')) {
            Ok(s) => match s.with_op(sentinel(), pos).parse_e() {
                Ok(t) => match t.expect(TokenKind::OpSingle(')')) {
                    Ok(u) => Ok(
                        (
                            ParserState { ops: u.ops.drop_last(), exps: u.exps.drop_last(), ..u },
                            u.exps.last(),
                        ),
                    ),
                    Err(e) => Err(e),
                },
                Err(e) => Err(e),
            },
            Err(e) => Err(e),
        }
    }

    #[via_fn]
    proof fn parse_op_decreases(self) {
        if let TokenKind::OpSingle(ch) = self.next.typ {
            if let Some(op) = lookup(ch, OpType::Binary) {
                self.lemma_push_keeps_input(op, self.next.pos);
                self.push_operator(op, self.next.pos).lemma_consume_weight();
            }
        }
    }

    #[via_fn]
    proof fn parse_p_decreases(self) {
        self.lemma_consume_weight();
        if let TokenKind::OpSingle(ch) = self.next.typ {
            if let Some(op) = lookup(ch, OpType::Prefix) {
                self.with_op(op, self.next.pos).lemma_consume_weight();
            }
        }
    }

    #[via_fn]
    proof fn parse_parens_decreases(self, pos: u32) {
        self.lemma_consume_weight();
    }

    /// Pushing an operator changes the two stacks only.
    pub proof fn lemma_push_keeps_input(self, op: Op, pos: u32)
        ensures
            self.push_operator(op, pos).lexer == self.lexer,
            self.push_operator(op, pos).next == self.next,
        decreases self.ops.len(),
    {
        if self.ops.len() > 0 && binds_tighter(self.ops.last().0, op) && self.can_reduce() {
            self.reduce().lemma_push_keeps_input(op, pos);
        }
    }

    /// Taking a token never adds to the weight, and takes from it where the
    /// lookahead was a single character.
    pub proof fn lemma_consume_weight(self)
        ensures
            self.consume() matches Ok(s) ==> s.weight() <= self.weight() && (self.next.typ
                is OpSingle ==> s.weight() < self.weight()),
    {
        lemma_next_token_consumes(self.lexer);
    }
}

/// The state in which the parse of `text` starts: the first token is the
/// lookahead, a marker is the operator stack, and there is no subtree yet.
pub open spec fn initial(text: Seq<char>) -> Result<ParserState, ParseErrorView> {
    match LexerState::start(text).next_token() {
        (Ok(token), lexer) => Ok(
            ParserState { lexer, next: token, ops: seq![(sentinel(), 0u32)], exps: Seq::empty() },
        ),
        (Err(e), _) => Err(e),
    }
}

/// The state in which the parse of `text` ends, or the first error: one
/// expression is parsed, and the end of the text expected behind it.
pub open spec fn run(text: Seq<char>) -> Result<ParserState, ParseErrorView> {
    match initial(text) {
        Ok(s) => match s.parse_e() {
            Ok(t) => match t.expect(TokenKind::End) {
                Ok(u) => Ok(u),
                Err(failure) => Err(failure.error),
            },
            Err(failure) => Err(failure.error),
        },
        Err(e) => Err(e),
    }
}

/// The syntax tree of `text`, or the first error.
pub open spec fn parse_text(text: Seq<char>) -> Result<Tree, ParseErrorView> {
    match run(text) {
        Ok(s) => Ok(s.exps.last()),
        Err(e) => Err(e),
    }
}

} // verus!

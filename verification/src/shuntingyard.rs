//! The shunting-yard parser: it builds the syntax tree of an expression
//! with a stack of operators and a stack of finished subtrees.
//!
//! The functions for an expression and for a primary call each other, once
//! for each level of parentheses and for each prefix operator of a chain: a
//! text that nests very deeply needs a call stack of that depth.

use crate::ast::{AstNode, AstType, Tree, TreeType};
use crate::error::{ParseError, ParseErrorView};
use crate::grammar::{describe, operand_expected, parse_text, Failure, Parsed, ParserState};
use crate::grammar_proofs::{binary_count, lemma_tree_is_well_formed};
use crate::lexer::{lemma_next_token, Lexer, LexerState, Token, TokenKind, TokenType};
use crate::operators::{
    get_op, has_greater_prec, is_sentinel, lemma_lookup, make_sentinel, sentinel, Op, OpType,
};
use crate::shape::lemma_tree_is_shaped;
use crate::spelling::{agrees, lemma_tree_spells_text, marks};
use crate::text::{decimal, push_decimal};
use vstd::prelude::*;
use vstd::string::*;

verus! {

/// What `parse` returns, with its texts as sequences of characters.
pub open spec fn parsed(r: Result<AstNode, ParseError>) -> Result<Tree, ParseErrorView> {
    match r {
        Ok(node) => Ok(node@),
        Err(e) => Err(e@),
    }
}

/// The subtrees that a stack of nodes stands for.
pub open spec fn trees(nodes: Seq<AstNode>) -> Seq<Tree> {
    nodes.map_values(|n: AstNode| n@)
}

/// Whether the call of a step that returned `r` and left the state `after`
/// did what `expected` says, where it succeeds and where it fails.
pub open spec fn stepped(r: Result<(), ParseError>, after: ParserState, expected: Parsed) -> bool {
    match expected {
        Ok(s) => r is Ok && after == s,
        Err(failure) => r matches Err(x) && x@ == failure.error && after == failure.state,
    }
}

/// Appends to `msg` how the token type is named in a message.
fn push_description(msg: &mut String, typ: &TokenType<'_>)
    ensures
        final(msg)@ == old(msg)@ + describe(typ@),
{
    match typ {
        TokenType::Number(lit) => {
            msg.append("Number(");
            msg.append(lit);
            msg.append(")");
            assert(final(msg)@ =~= old(msg)@ + describe(typ@));
        },
        TokenType::Ident(name) => {
            msg.append("Ident(\"");
            msg.append(name);
            msg.append("\")");
            assert(final(msg)@ =~= old(msg)@ + describe(typ@));
        },
        TokenType::OpSingle(ch) => {
            msg.append("OpSingle('");
            msg.push(*ch);
            msg.append("')");
            assert(final(msg)@ =~= old(msg)@ + describe(typ@));
        },
        TokenType::End => {
            msg.append("End");
        },
    }
}

/// The error for the token `found`, the message of which starts with `msg`.
fn expected_error(msg: String, found: &Token<'_>) -> (e: ParseError)
    ensures
        e@ == ParseErrorView::Parse(
            msg@ + ", but got "@ + describe(found@.typ) + " at position "@ + decimal(
                found.pos as nat,
            ),
        ),
{
    let mut msg = msg;
    msg.append(", but got ");
    push_description(&mut msg, &found.typ);
    msg.append(" at position ");
    push_decimal(&mut msg, found.pos);
    ParseError::Parse(msg)
}

/// The error for the token `found` where an operand had to start.
fn operand_error(found: &Token<'_>) -> (e: ParseError)
    ensures
        e@ == operand_expected(found@),
{
    let mut msg = "Expected ".to_owned();
    msg.append("operand");
    expected_error(msg, found)
}

struct ShuntingYard<'a> {
    lexer: Lexer<'a>,
    next: Token<'a>,
    op_stack: Vec<(Op, u32)>,  // (operator, position) pair
    exp_stack: Vec<AstNode>,
}

impl<'a> View for ShuntingYard<'a> {
    type V = ParserState;

    closed spec fn view(&self) -> ParserState {
        ParserState {
            lexer: self.lexer@,
            next: self.next@,
            ops: self.op_stack@,
            exps: trees(self.exp_stack@),
        }
    }
}

impl<'a> ShuntingYard<'a> {
    fn parse(&mut self) -> (r: Result<AstNode, ParseError>)
        requires
            old(self)@.stacks_ok(),
            old(self)@.input_ok(),
            old(self)@.surplus() == 0,
            old(self)@.ops.len() == 1,
        ensures
            match old(self)@.parse_e() {
                Ok(s) => match s.expect(TokenKind::End) {
                    Ok(t) => r matches Ok(node) && node@ == t.exps.last() && final(self)@ == (
                    ParserState { exps: t.exps.drop_last(), ..t }),
                    Err(failure) => r matches Err(x) && x@ == failure.error && final(self)@
                        == failure.state,
                },
                Err(failure) => r matches Err(x) && x@ == failure.error && final(self)@
                    == failure.state,
            },
    {
        let ghost start = self@;
        proof {
            start.lemma_parse_e();
            assert(start.ops.take(1) =~= start.ops);
        }
        match self.parse_e() {
            Err(e) => {
                return Err(e);
            },
            Ok(()) => {},
        }
        proof {
            self@.lemma_consume();
        }
        match self.expect(TokenType::End) {
            Err(e) => {
                return Err(e);
            },
            Ok(()) => {},
        }
        proof {
            reveal_with_fuel(binary_count, 2);
        }
        assert(self.op_stack@.len() == 1);
        assert(self.exp_stack@.len() == 1);
        let ghost done = self@;
        let node = self.exp_stack.pop().unwrap();
        assert(self@.exps =~= done.exps.drop_last());
        Ok(node)
    }

    fn consume(&mut self) -> (r: Result<(), ParseError>)
        ensures
            stepped(r, final(self)@, old(self)@.consume()),
            r is Err ==> final(self)@.next == old(self)@.next,
            final(self)@.ops == old(self)@.ops,
            final(self)@.exps == old(self)@.exps,
    {
        match self.lexer.next_token() {
            Ok(token) => {
                self.next = token;
                Ok(())
            },
            Err(e) => Err(e),
        }
    }

    fn expect(&mut self, token_type: TokenType<'_>) -> (r: Result<(), ParseError>)
        ensures
            stepped(r, final(self)@, old(self)@.expect(token_type@)),
            old(self)@.next.typ != token_type@ ==> r is Err && final(self)@ == old(self)@,
    {
        if self.next.typ.same(&token_type) {
            self.consume()
        } else {
            let mut msg = "Expected ".to_owned();
            push_description(&mut msg, &token_type);
            msg.append(" of expression");
            assert(msg@ =~= "Expected "@ + (describe(token_type@) + " of expression"@));
            Err(expected_error(msg, &self.next))
        }
    }

    fn match_starting_parens(&self) -> (b: bool)
        ensures
            b == (self@.next.typ == TokenKind::OpSingle('(')),
    {
        if let TokenType::OpSingle(ch) = self.next.typ {
            ch == '('
        } else {
            false
        }
    }

    fn top_operator(&self) -> (top: &(Op, u32))
        requires
            self@.ops.len() > 0,
        ensures
            *top == self@.ops.last(),
    {
        &self.op_stack[self.op_stack.len() - 1]
    }

    fn parse_e(&mut self) -> (r: Result<(), ParseError>)
        requires
            old(self)@.stacks_ok(),
            old(self)@.input_ok(),
            old(self)@.surplus() == 0,
        ensures
            stepped(r, final(self)@, old(self)@.parse_e()),
        decreases old(self)@.weight(), 4nat,
    {
        let ghost start = self@;
        proof {
            start.lemma_parse_p();
        }
        match self.parse_p() {
            Err(e) => {
                return Err(e);
            },
            Ok(()) => {},
        }
        let ghost goal = self@.parse_ops();
        assert(old(self)@.parse_e() == match goal {
            Ok(t) => Ok::<ParserState, Failure>(t.drain()),
            Err(e) => Err(e),
        });
        loop
            invariant
                self@.stacks_ok(),
                self@.input_ok(),
                self@.surplus() == 1,
                self@.weight() <= old(self)@.weight(),
                self@.parse_ops() == goal,
                goal is Err ==> old(self)@.parse_e() == goal,
            ensures
                self@.stacks_ok(),
                self@.surplus() == 1,
                goal == Ok::<ParserState, Failure>(self@),
            decreases self@.weight(),
        {
            proof {
                self@.lemma_parse_op();
            }
            match self.parse_op() {
                Err(e) => {
                    return Err(e);
                },
                Ok(true) => {},
                Ok(false) => {
                    break ;
                },
            }
        }
        let ghost looped = self@;
        while !is_sentinel(self.op_stack.last())
            invariant
                self@.stacks_ok(),
                self@.surplus() == 1,
                self@.drain() == looped.drain(),
            decreases self@.ops.len(),
        {
            proof {
                self@.lemma_top_reducible();
                self@.lemma_reduce();
            }
            self.pop_operator();
        }
        Ok(())
    }

    /// Parses one part `BinOp P` or `PostfixOp` and says whether there was one.
    fn parse_op(&mut self) -> (r: Result<bool, ParseError>)
        requires
            old(self)@.stacks_ok(),
            old(self)@.input_ok(),
            old(self)@.surplus() == 1,
        ensures
            match old(self)@.parse_op() {
                Some(Ok(s)) => r == Ok::<bool, ParseError>(true) && final(self)@ == s,
                Some(Err(failure)) => r matches Err(x) && x@ == failure.error && final(self)@
                    == failure.state,
                None => r == Ok::<bool, ParseError>(false) && final(self)@ == old(self)@,
            },
        decreases old(self)@.weight(), 2nat,
    {
        let ghost cur = self@;
        let next = self.next;
        if let TokenType::OpSingle(ch) = next.typ {
            if let Some(op) = get_op(ch, OpType::Binary) {
                proof {
                    lemma_lookup(ch, OpType::Binary);
                    cur.lemma_can_push(op);
                    cur.lemma_push(op, next.pos);
                    cur.push_operator(op, next.pos).lemma_consume();
                }
                self.push_operator((op, next.pos));
                match self.consume() {
                    Err(e) => {
                        return Err(e);
                    },
                    Ok(()) => {},
                }
                match self.parse_p() {
                    Err(e) => Err(e),
                    Ok(()) => Ok(true),
                }
            } else if let Some(op) = get_op(ch, OpType::Postfix) {
                proof {
                    lemma_lookup(ch, OpType::Postfix);
                    cur.lemma_can_push(op);
                    cur.lemma_push(op, next.pos);
                }
                self.push_operator((op, next.pos));
                // The postfix operator's sole argument is ready on the expression stack
                // after push_operator completes, taking precedence into account.
                self.pop_operator();
                match self.consume() {
                    Err(e) => Err(e),
                    Ok(()) => Ok(true),
                }
            } else {
                Ok(false)
            }
        } else {
            Ok(false)
        }
    }

    fn parse_p(&mut self) -> (r: Result<(), ParseError>)
        requires
            old(self)@.stacks_ok(),
            old(self)@.input_ok(),
            old(self)@.surplus() == 0,
        ensures
            stepped(r, final(self)@, old(self)@.parse_p()),
            old(self)@.starts_no_operand() ==> (r matches Err(x) && x@ == operand_expected(
                old(self)@.next,
            )) && final(self)@ == old(self)@,
        decreases old(self)@.weight(), 1nat,
    {
        let ghost start = self@;
        let next = self.next;
        let pos = next.pos;
        match next.typ {
            TokenType::Number(v) => {
                self.exp_stack.push(AstNode::new(AstType::Number(v.to_owned()), pos));
                assert(self@.exps =~= start.with_exp(TreeType::Number(v@), pos).exps);
                self.consume()
            },
            TokenType::Ident(s) => {
                proof {
                    start.lemma_consume();
                }
                match self.consume() {
                    Err(e) => {
                        return Err(e);
                    },
                    Ok(()) => {},
                }
                if self.match_starting_parens() {
                    let ghost inner = self@;
                    let t = match self.parse_parens(pos) {
                        Ok(t) => t,
                        Err(e) => {
                            return Err(e);
                        },
                    };
                    let ghost closed = self@;
                    self.exp_stack.push(AstNode::new(AstType::Func(s.to_owned(), t), pos));
                    assert(self@.exps =~= closed.with_exp(
                        TreeType::Func(s@, Box::new(t@)),
                        pos,
                    ).exps);
                } else {
                    let ghost inner = self@;
                    self.exp_stack.push(AstNode::new(AstType::Ident(s.to_owned()), pos));
                    assert(self@.exps =~= inner.with_exp(TreeType::Ident(s@), pos).exps);
                }
                Ok(())
            },
            TokenType::OpSingle(ch) => {
                if ch == '(' {
                    let t = match self.parse_parens(pos) {
                        Ok(t) => t,
                        Err(e) => {
                            return Err(e);
                        },
                    };
                    let ghost closed = self@;
                    self.exp_stack.push(AstNode::new(AstType::Parens(t), pos));
                    assert(self@.exps =~= closed.with_exp(TreeType::Parens(Box::new(t@)), pos).exps);
                    Ok(())
                } else if let Some(op) = get_op(ch, OpType::Prefix) {
                    proof {
                        lemma_lookup(ch, OpType::Prefix);
                        start.lemma_with_op(op, pos);
                        start.with_op(op, pos).lemma_consume();
                    }
                    // An operand is expected here, so no operator on the stack can be
                    // applied yet: the prefix operator goes on top as it is.
                    self.op_stack.push((op, pos));
                    match self.consume() {
                        Err(e) => {
                            return Err(e);
                        },
                        Ok(()) => {},
                    }
                    self.parse_p()
                } else {
                    Err(operand_error(&next))
                }
            },
            TokenType::End => Err(operand_error(&next)),
        }
    }

    fn parse_parens(&mut self, pos: u32) -> (r: Result<Box<AstNode>, ParseError>)
        requires
            old(self)@.stacks_ok(),
            old(self)@.input_ok(),
            old(self)@.surplus() == 0,
            old(self)@.next.typ == TokenKind::OpSingle('('),
        ensures
            match old(self)@.parse_parens(pos) {
                Ok(s) => r matches Ok(t) && t@ == s.1 && final(self)@ == s.0,
                Err(failure) => r matches Err(x) && x@ == failure.error && final(self)@
                    == failure.state,
            },
        decreases old(self)@.weight(), 0nat,
    {
        let ghost start = self@;
        proof {
            start.lemma_consume();
        }
        match self.consume() {
            Err(e) => {
                return Err(e);
            },
            Ok(()) => {},
        }
        let ghost inner = self@;
        proof {
            inner.lemma_open_scope(pos);
            inner.with_op(sentinel(), pos).lemma_parse_e();
        }
        self.op_stack.push((make_sentinel(), pos));
        match self.parse_e() {
            Err(e) => {
                return Err(e);
            },
            Ok(()) => {},
        }
        proof {
            self@.lemma_consume();
        }
        match self.expect(TokenType::OpSingle(')')) {
            Err(e) => {
                return Err(e);
            },
            Ok(()) => {},
        }
        let ghost closed = self@;
        self.op_stack.pop().unwrap();
        let t = self.exp_stack.pop().unwrap();
        assert(self@.exps =~= closed.exps.drop_last());
        Ok(Box::new(t))
    }

    fn pop_operator(&mut self)
        requires
            old(self)@.can_reduce(),
        ensures
            final(self)@ == old(self)@.reduce(),
    {
        let (op, pos) = self.op_stack.pop().unwrap();
        let t = Box::new(self.exp_stack.pop().unwrap());
        let ghost below = self.exp_stack@;
        assert(trees(below) =~= old(self)@.exps.drop_last());
        match op.typ {
            OpType::Binary => {
                let t0 = Box::new(self.exp_stack.pop().unwrap());
                self.exp_stack.push(AstNode::new(AstType::Binary(op.ch, t0, t), pos));
                assert(self@.exps =~= old(self)@.reduce().exps);
            },
            OpType::Prefix => {
                self.exp_stack.push(AstNode::new(AstType::Prefix(op.ch, t), pos));
                assert(self@.exps =~= old(self)@.reduce().exps);
            },
            OpType::Postfix => {
                self.exp_stack.push(AstNode::new(AstType::Postfix(op.ch, t), pos));
                assert(self@.exps =~= old(self)@.reduce().exps);
            },
            OpType::Sentinel => {},
        }
    }

    fn push_operator(&mut self, op_pos: (Op, u32))
        requires
            old(self)@.can_push(op_pos.0),
        ensures
            final(self)@ == old(self)@.push_operator(op_pos.0, op_pos.1),
    {
        loop
            invariant
                self@.can_push(op_pos.0),
                self@.push_operator(op_pos.0, op_pos.1) == old(self)@.push_operator(
                    op_pos.0,
                    op_pos.1,
                ),
            ensures
                self@.with_op(op_pos.0, op_pos.1) == old(self)@.push_operator(op_pos.0, op_pos.1),
            decreases self.op_stack@.len(),
        {
            if !has_greater_prec(&self.top_operator().0, &op_pos.0) {
                break ;
            }
            self.pop_operator();
        }
        self.op_stack.push(op_pos);
    }
}

/// Shunting yard parser. It parses the following grammar:
///
/// ```text
/// E --> P { B P | V }
/// P --> "(" E ")" | U P | ident "(" E ")" | ident | number
/// B --> "+" | "-" | "*" | "/" | "^"
/// U --> "-"
/// V --> "!"
/// ```
///
/// It returns the syntax tree of `text`, or the first error that the lexer
/// or the grammar meets. There is no tree for a part of the text. A tree that
/// is returned is well formed, spells the tokens of the text, each node at
/// the position of its token, and keeps precedence and associativity. The
/// text must be short enough for every position in it to fit in 32 bits.
pub fn parse(text: &str) -> (r: Result<AstNode, ParseError>)
    requires
        text@.len() <= u32::MAX,
    ensures
        parsed(r) == parse_text(text@),
        r matches Ok(node) ==> {
            &&& node@.well_formed(text@.len() as int)
            &&& agrees(node@.spell(), marks(LexerState::start(text@).items().0))
            &&& node@.shaped()
        },
{
    proof {
        lemma_tree_is_well_formed(text@);
        lemma_tree_spells_text(text@);
        lemma_tree_is_shaped(text@);
    }
    let mut lexer = Lexer::new(text);
    let next = match lexer.next_token() {
        Ok(token) => token,
        Err(e) => {
            return Err(e);
        },
    };
    let mut op_stack: Vec<(Op, u32)> = Vec::new();
    op_stack.push((make_sentinel(), 0));
    let mut yard = ShuntingYard { lexer: lexer, next: next, op_stack: op_stack, exp_stack: Vec::new() };
    let ghost start = yard@;
    proof {
        lemma_next_token(LexerState::start(text@));
        assert(start.ops =~= seq![(sentinel(), 0u32)]);
        assert(start.exps =~= Seq::empty());
        reveal_with_fuel(binary_count, 2);
        assert(binary_count(start.ops) == 0);
        assert(start.ops.take(1) =~= start.ops);
        start.lemma_parse_e();
    }
    yard.parse()
}

/// Parsing is a function of the text: two parses of one text, each with a
/// lexer of its own, return the same tree, positions included, or the same
/// error.
pub proof fn lemma_parse_is_deterministic(
    text: Seq<char>,
    first: Result<AstNode, ParseError>,
    second: Result<AstNode, ParseError>,
)
    requires
        parsed(first) == parse_text(text),
        parsed(second) == parse_text(text),
    ensures
        parsed(first) == parsed(second),
        first matches Ok(a) ==> second matches Ok(b) && a@ == b@,
{
}

} // verus!

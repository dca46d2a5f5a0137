//! What holds of the parser at every step, and what follows for a text
//! that is accepted.

use crate::ast::{Tree, TreeType};
use crate::grammar::{
    initial, operand_expected, parse_text, run, token_expected, Failure, ParserState,
};
use crate::lexer::{lemma_next_token, LexerState, TokenKind, TokenView};
use crate::operators::{binds_tighter, lemma_lookup, lookup, sentinel, Op, OpType};
use vstd::prelude::*;

verus! {

/// The number of binary operators on an operator stack.
pub open spec fn binary_count(ops: Seq<(Op, u32)>) -> nat
    decreases ops.len(),
{
    if ops.len() == 0 {
        0
    } else {
        binary_count(ops.drop_last()) + if ops.last().0.typ == OpType::Binary {
            1nat
        } else {
            0nat
        }
    }
}

/// The length of the part of an operator stack that lies outside the
/// innermost scope: the entries up to the topmost marker, that marker included.
pub open spec fn base(ops: Seq<(Op, u32)>) -> nat
    decreases ops.len(),
{
    if ops.len() == 0 {
        0
    } else if ops.last().0.typ == OpType::Sentinel {
        ops.len()
    } else {
        base(ops.drop_last())
    }
}

/// The two facts by which `binary_count` and `base` follow a push.
pub proof fn lemma_stack_push(ops: Seq<(Op, u32)>, entry: (Op, u32))
    ensures
        binary_count(ops.push(entry)) == binary_count(ops) + if entry.0.typ == OpType::Binary {
            1nat
        } else {
            0nat
        },
        base(ops.push(entry)) == if entry.0.typ == OpType::Sentinel {
            ops.len() + 1
        } else {
            base(ops)
        },
        base(ops) <= ops.len(),
        binary_count(ops) <= ops.len(),
    decreases ops.len(),
{
    assert(ops.push(entry).drop_last() =~= ops);
    if ops.len() > 0 {
        lemma_stack_push(ops.drop_last(), ops.last());
        assert(ops.drop_last().push(ops.last()) =~= ops);
    }
}

/// Whether an entry of the operator stack is in order for a text of `end`
/// characters: a marker binds weaker than any operator of the table, and an
/// operator is in the table and stands within the text.
pub open spec fn entry_ok(entry: (Op, u32), end: int) -> bool {
    if entry.0.typ == OpType::Sentinel {
        entry.0.prec == 0
    } else {
        lookup(entry.0.ch, entry.0.typ) == Some(entry.0) && entry.1 < end
    }
}

impl ParserState {
    /// The two stacks are in order: a marker lies at the bottom of the
    /// operator stack, every entry of that stack is in order, and every
    /// subtree on the expression stack is well formed.
    pub open spec fn stacks_ok(self) -> bool {
        &&& self.ops.len() >= 1
        &&& self.ops[0].0.typ == OpType::Sentinel
        &&& forall|i: int|
            0 <= i < self.ops.len() ==> entry_ok(#[trigger] self.ops[i], self.lexer.end_pos())
        &&& forall|i: int|
            0 <= i < self.exps.len() ==> (#[trigger] self.exps[i]).well_formed(
                self.lexer.end_pos(),
            )
    }

    /// By how many the subtrees outnumber the binary operators on the stack:
    /// 0 where an operand must follow, 1 where an operator may follow.
    pub open spec fn surplus(self) -> int {
        self.exps.len() - binary_count(self.ops)
    }

    /// The part of the operator stack outside the innermost scope.
    pub open spec fn frozen(self) -> Seq<(Op, u32)> {
        self.ops.take(base(self.ops) as int)
    }

    /// The lookahead is what the lexer gave last: the lexer has not failed,
    /// `End` stands at the end of the text, and any other token before it.
    pub open spec fn input_ok(self) -> bool {
        &&& self.lexer.wf()
        &&& self.lexer.error is None
        &&& self.next.well_formed()
        &&& self.next.typ is End ==> self.lexer.rest.len() == 0 && self.next.pos
            == self.lexer.end_pos()
        &&& self.next.typ !is End ==> self.next.pos < self.lexer.end_pos()
    }

    /// What every step keeps of the state `before`: the order of the
    /// operator stack, the lookahead as the lexer gave it, the end of the text,
    /// and the weight as a bound.
    pub open spec fn follows(self, before: ParserState) -> bool {
        &&& self.stacks_ok()
        &&& self.input_ok()
        &&& self.lexer.end_pos() == before.lexer.end_pos()
        &&& self.weight() <= before.weight()
    }

    /// Applying an operator keeps the lexer, the lookahead, the surplus and
    /// what lies outside the innermost scope.
    pub proof fn lemma_reduce(self)
        requires
            self.stacks_ok(),
            self.can_reduce(),
        ensures
            self.reduce().stacks_ok(),
            self.reduce().ops == self.ops.drop_last(),
            self.reduce().surplus() == self.surplus(),
            self.reduce().frozen() == self.frozen(),
            self.reduce().lexer == self.lexer,
            self.reduce().next == self.next,
    {
        let ops = self.ops.drop_last();
        lemma_stack_push(ops, self.ops.last());
        assert(ops.push(self.ops.last()) =~= self.ops);
        assert(ops.len() >= 1) by {
            if ops.len() == 0 {
                assert(self.ops.last() == self.ops[0]);
            }
        }
        assert(self.reduce().ops == ops);
        assert(ops.take(base(ops) as int) =~= self.ops.take(base(ops) as int));
        let end = self.lexer.end_pos();
        assert forall|i: int| 0 <= i < ops.len() implies entry_ok(#[trigger] ops[i], end) by {
            assert(ops[i] == self.ops[i]);
        }
        let top = self.ops[self.ops.len() - 1];
        assert(entry_ok(top, end));
        let exps = self.reduce().exps;
        let n = self.exps.len() as int;
        assert(self.exps[n - 1].well_formed(end));
        if top.0.typ == OpType::Binary {
            assert(self.exps[n - 2].well_formed(end));
        }
        assert forall|i: int| 0 <= i < exps.len() implies (#[trigger] exps[i]).well_formed(end) by {
            if i < exps.len() - 1 {
                assert(exps[i] == self.exps[i]);
            }
        }
    }

    /// Where a subtree is on top that no binary operator waits for, the
    /// operator on top of the stack finds its operands.
    pub proof fn lemma_top_reducible(self)
        requires
            self.stacks_ok(),
            self.surplus() >= 1,
        ensures
            self.ops.last().0.typ != OpType::Sentinel ==> self.can_reduce(),
    {
        lemma_stack_push(self.ops.drop_last(), self.ops.last());
        assert(self.ops.drop_last().push(self.ops.last()) =~= self.ops);
    }

    /// Where a subtree is on top that no binary operator waits for, an
    /// operator of the table can be pushed.
    pub proof fn lemma_can_push(self, op: Op)
        requires
            self.stacks_ok(),
            self.surplus() >= 1,
            op.prec >= 1,
        ensures
            self.can_push(op),
        decreases self.ops.len(),
    {
        if binds_tighter(self.ops.last().0, op) {
            self.lemma_top_reducible();
            self.lemma_reduce();
            self.reduce().lemma_can_push(op);
        }
    }

    /// An operator that goes on the operator stack keeps the stacks in
    /// order and what lies outside the innermost scope; a binary operator
    /// takes one from the surplus.
    pub proof fn lemma_with_op(self, op: Op, pos: u32)
        requires
            self.stacks_ok(),
            entry_ok((op, pos), self.lexer.end_pos()),
            op.typ != OpType::Sentinel,
        ensures
            self.with_op(op, pos).stacks_ok(),
            self.with_op(op, pos).surplus() == self.surplus() - if op.typ == OpType::Binary {
                1int
            } else {
                0int
            },
            self.with_op(op, pos).frozen() == self.frozen(),
            self.with_op(op, pos).weight() == self.weight(),
    {
        lemma_stack_push(self.ops, (op, pos));
        let pushed = self.ops.push((op, pos));
        assert(pushed.take(base(self.ops) as int) =~= self.ops.take(base(self.ops) as int));
        assert forall|i: int| 0 <= i < pushed.len() implies entry_ok(
            #[trigger] pushed[i],
            self.lexer.end_pos(),
        ) by {
            if i < self.ops.len() {
                assert(pushed[i] == self.ops[i]);
            }
        }
    }

    /// Pushing an operator keeps the lexer, the lookahead and what lies
    /// outside the innermost scope; a binary operator takes one from the surplus.
    pub proof fn lemma_push(self, op: Op, pos: u32)
        requires
            self.stacks_ok(),
            self.can_push(op),
            op.prec >= 1,
            entry_ok((op, pos), self.lexer.end_pos()),
            op.typ != OpType::Sentinel,
        ensures
            self.push_operator(op, pos).stacks_ok(),
            self.push_operator(op, pos).ops.last() == (op, pos),
            self.push_operator(op, pos).surplus() == self.surplus() - if op.typ == OpType::Binary {
                1int
            } else {
                0int
            },
            self.push_operator(op, pos).frozen() == self.frozen(),
            self.push_operator(op, pos).lexer == self.lexer,
            self.push_operator(op, pos).next == self.next,
        decreases self.ops.len(),
    {
        if binds_tighter(self.ops.last().0, op) {
            self.lemma_reduce();
            self.reduce().lemma_push(op, pos);
        } else {
            self.lemma_with_op(op, pos);
            assert(self.ops.push((op, pos)).last() == (op, pos));
        }
    }

    /// Draining leaves what lies outside the innermost scope as the whole
    /// operator stack, and keeps the lexer, the lookahead and the surplus.
    pub proof fn lemma_drain(self)
        requires
            self.stacks_ok(),
            self.surplus() >= 1,
        ensures
            self.drain().stacks_ok(),
            self.drain().ops == self.frozen(),
            self.drain().ops.last().0.typ == OpType::Sentinel,
            self.drain().surplus() == self.surplus(),
            self.drain().lexer == self.lexer,
            self.drain().next == self.next,
        decreases self.ops.len(),
    {
        self.lemma_top_reducible();
        if self.can_reduce() {
            self.lemma_reduce();
            self.reduce().lemma_drain();
        } else {
            assert(self.ops.take(self.ops.len() as int) =~= self.ops);
        }
    }

    /// A well-formed subtree can go on the expression stack: the stacks stay
    /// in order, and the surplus grows by one.
    pub proof fn lemma_with_exp(self, typ: TreeType, pos: u32)
        requires
            self.stacks_ok(),
            (Tree { typ, pos }).well_formed(self.lexer.end_pos()),
        ensures
            self.with_exp(typ, pos).stacks_ok(),
            self.with_exp(typ, pos).surplus() == self.surplus() + 1,
    {
        let exps = self.with_exp(typ, pos).exps;
        assert forall|i: int| 0 <= i < exps.len() implies (#[trigger] exps[i]).well_formed(
            self.lexer.end_pos(),
        ) by {
            if i < self.exps.len() {
                assert(exps[i] == self.exps[i]);
            }
        }
    }

    /// A new scope starts in order, and all of the operator stack lies
    /// outside it.
    pub proof fn lemma_open_scope(self, pos: u32)
        requires
            self.stacks_ok(),
        ensures
            self.with_op(sentinel(), pos).stacks_ok(),
            self.with_op(sentinel(), pos).surplus() == self.surplus(),
            self.with_op(sentinel(), pos).frozen() == self.ops.push((sentinel(), pos)),
            self.with_op(sentinel(), pos).weight() == self.weight(),
    {
        let opened = self.with_op(sentinel(), pos);
        lemma_stack_push(self.ops, (sentinel(), pos));
        assert(opened.ops.take(opened.ops.len() as int) =~= opened.ops);
        assert forall|i: int| 0 <= i < opened.ops.len() implies entry_ok(
            #[trigger] opened.ops[i],
            self.lexer.end_pos(),
        ) by {
            if i < self.ops.len() {
                assert(opened.ops[i] == self.ops[i]);
            }
        }
    }

    /// Taking a token keeps the stacks and the end of the text.
    pub proof fn lemma_consume(self)
        requires
            self.stacks_ok(),
            self.input_ok(),
        ensures
            self.consume() matches Ok(s) ==> s.follows(self) && s.ops == self.ops && s.exps
                == self.exps && (self.next.typ is OpSingle ==> s.weight() < self.weight()),
    {
        lemma_next_token(self.lexer);
        self.lemma_consume_weight();
    }

    /// An expression adds one subtree and leaves the operator stack as it
    /// was outside the innermost scope.
    pub proof fn lemma_parse_e(self)
        requires
            self.stacks_ok(),
            self.input_ok(),
            self.surplus() == 0,
        ensures
            self.parse_e() matches Ok(s) ==> s.follows(self) && s.surplus() == 1 && s.ops
                == self.frozen(),
        decreases self.weight(), 4nat,
    {
        self.lemma_parse_p();
        if let Ok(s) = self.parse_p() {
            s.lemma_parse_ops();
            if let Ok(t) = s.parse_ops() {
                t.lemma_drain();
            }
        }
    }

    /// What follows a primary keeps the one subtree that no binary operator
    /// waits for, and what lies outside the innermost scope.
    pub proof fn lemma_parse_ops(self)
        requires
            self.stacks_ok(),
            self.input_ok(),
            self.surplus() == 1,
        ensures
            self.parse_ops() matches Ok(s) ==> s.follows(self) && s.surplus() == 1 && s.frozen()
                == self.frozen(),
        decreases self.weight(), 3nat,
    {
        self.lemma_parse_op();
        if let Some(Ok(s)) = self.parse_op() {
            s.lemma_parse_ops();
        }
    }

    /// One part behind a primary consumes its operator and keeps the one
    /// subtree that no binary operator waits for, and what lies outside the
    /// innermost scope.
    pub proof fn lemma_parse_op(self)
        requires
            self.stacks_ok(),
            self.input_ok(),
            self.surplus() == 1,
        ensures
            self.parse_op() matches Some(Ok(s)) ==> s.follows(self) && s.surplus() == 1
                && s.frozen() == self.frozen() && s.weight() < self.weight(),
        decreases self.weight(), 2nat,
    {
        if let TokenKind::OpSingle(ch) = self.next.typ {
            let pos = self.next.pos;
            lemma_lookup(ch, OpType::Binary);
            lemma_lookup(ch, OpType::Postfix);
            if let Some(op) = lookup(ch, OpType::Binary) {
                self.lemma_can_push(op);
                self.lemma_push(op, pos);
                let pushed = self.push_operator(op, pos);
                pushed.lemma_consume();
                if let Ok(s) = pushed.consume() {
                    s.lemma_parse_p();
                }
            } else if let Some(op) = lookup(ch, OpType::Postfix) {
                self.lemma_can_push(op);
                self.lemma_push(op, pos);
                let pushed = self.push_operator(op, pos);
                pushed.lemma_reduce();
                pushed.reduce().lemma_consume();
            }
        }
    }

    /// A primary adds one subtree and keeps what lies outside the innermost
    /// scope.
    pub proof fn lemma_parse_p(self)
        requires
            self.stacks_ok(),
            self.input_ok(),
            self.surplus() == 0,
        ensures
            self.parse_p() matches Ok(s) ==> s.follows(self) && s.surplus() == 1 && s.frozen()
                == self.frozen(),
        decreases self.weight(), 1nat,
    {
        let pos = self.next.pos;
        match self.next.typ {
            TokenKind::Number(lit) => {
                self.lemma_with_exp(TreeType::Number(lit), pos);
                self.with_exp(TreeType::Number(lit), pos).lemma_consume();
            },
            TokenKind::Ident(name) => {
                self.lemma_consume();
                if let Ok(s) = self.consume() {
                    if s.next.typ == TokenKind::OpSingle('(') {
                        s.lemma_parse_parens(pos);
                        if let Ok(t) = s.parse_parens(pos) {
                            t.0.lemma_with_exp(TreeType::Func(name, Box::new(t.1)), pos);
                        }
                    } else {
                        s.lemma_with_exp(TreeType::Ident(name), pos);
                    }
                }
            },
            TokenKind::OpSingle(ch) => {
                if ch == '(' {
                    self.lemma_parse_parens(pos);
                    if let Ok(t) = self.parse_parens(pos) {
                        t.0.lemma_with_exp(TreeType::Parens(Box::new(t.1)), pos);
                    }
                } else if let Some(op) = lookup(ch, OpType::Prefix) {
                    lemma_lookup(ch, OpType::Prefix);
                    self.lemma_with_op(op, pos);
                    let pushed = self.with_op(op, pos);
                    pushed.lemma_consume();
                    if let Ok(s) = pushed.consume() {
                        s.lemma_parse_p();
                    }
                }
            },
            TokenKind::End => {},
        }
    }

    /// An expression in parentheses leaves the operator stack as it was and
    /// the expression stack as long as it was; its subtree is handed out.
    pub proof fn lemma_parse_parens(self, pos: u32)
        requires
            self.stacks_ok(),
            self.input_ok(),
            self.surplus() == 0,
        ensures
            self.parse_parens(pos) matches Ok(r) ==> r.0.follows(self) && r.0.surplus() == 0
                && r.0.ops == self.ops && r.1.well_formed(self.lexer.end_pos()),
        decreases self.weight(), 0nat,
    {
        if self.next.typ == TokenKind::OpSingle('(') {
            self.lemma_consume();
            if let Ok(s) = self.consume() {
                let opened = s.with_op(sentinel(), pos);
                s.lemma_open_scope(pos);
                opened.lemma_parse_e();
                if let Ok(t) = opened.parse_e() {
                    if t.next.typ == TokenKind::OpSingle(')') {
                        t.lemma_consume();
                        if let Ok(u) = t.consume() {
                            assert(u.ops.drop_last() =~= s.ops);
                            let end = self.lexer.end_pos();
                            let rest = u.exps.drop_last();
                            assert(u.exps[u.exps.len() - 1].well_formed(end));
                            assert forall|i: int| 0 <= i < rest.len() implies (
                            #[trigger] rest[i]).well_formed(end) by {
                                assert(rest[i] == u.exps[i]);
                            }
                        }
                    }
                }
            }
        }
    }
}

impl Failure {
    /// Whether the parse ended where the grammar ends it: the lexer has
    /// failed, or an operand must start and no operand starts with the
    /// lookahead, or `)` or the end of the text must stand and the lookahead
    /// is another token.
    pub open spec fn at_violation(self) -> bool {
        ||| self.error !is Parse && self.state.lexer.error is Some
        ||| self.error == operand_expected(self.state.next) && self.state.starts_no_operand()
        ||| self.error == token_expected(TokenKind::OpSingle(')'), self.state.next)
            && self.state.next.typ != TokenKind::OpSingle(')')
        ||| self.error == token_expected(TokenKind::End, self.state.next) && self.state.next.typ
            !is End
    }
}

impl ParserState {
    /// An expression fails only where the grammar is violated.
    pub proof fn lemma_failure_e(self)
        ensures
            self.parse_e() matches Err(failure) ==> failure.at_violation(),
        decreases self.weight(), 4nat,
    {
        self.lemma_failure_p();
        if let Ok(s) = self.parse_p() {
            if s.weight() <= self.weight() {
                s.lemma_failure_ops();
            }
        }
    }

    /// What follows a primary fails only where the grammar is violated.
    pub proof fn lemma_failure_ops(self)
        ensures
            self.parse_ops() matches Err(failure) ==> failure.at_violation(),
        decreases self.weight(), 3nat,
    {
        self.lemma_failure_op();
        if let Some(Ok(s)) = self.parse_op() {
            if s.weight() < self.weight() {
                s.lemma_failure_ops();
            }
        }
    }

    /// One part behind a primary fails only where the grammar is violated.
    pub proof fn lemma_failure_op(self)
        ensures
            self.parse_op() matches Some(Err(failure)) ==> failure.at_violation(),
        decreases self.weight(), 2nat,
    {
        if let TokenKind::OpSingle(ch) = self.next.typ {
            let pos = self.next.pos;
            if let Some(op) = lookup(ch, OpType::Binary) {
                self.lemma_push_keeps_input(op, pos);
                let pushed = self.push_operator(op, pos);
                pushed.lemma_consume_weight();
                if let Ok(s) = pushed.consume() {
                    s.lemma_failure_p();
                }
            }
        }
    }

    /// A primary fails only where the grammar is violated.
    pub proof fn lemma_failure_p(self)
        ensures
            self.parse_p() matches Err(failure) ==> failure.at_violation(),
        decreases self.weight(), 1nat,
    {
        let pos = self.next.pos;
        self.lemma_consume_weight();
        match self.next.typ {
            TokenKind::Number(lit) => {},
            TokenKind::Ident(name) => {
                if let Ok(s) = self.consume() {
                    if s.next.typ == TokenKind::OpSingle('(') {
                        s.lemma_failure_parens(pos);
                    }
                }
            },
            TokenKind::OpSingle(ch) => {
                if ch == '(' {
                    self.lemma_failure_parens(pos);
                } else if let Some(op) = lookup(ch, OpType::Prefix) {
                    let pushed = self.with_op(op, pos);
                    pushed.lemma_consume_weight();
                    if let Ok(s) = pushed.consume() {
                        s.lemma_failure_p();
                    }
                }
            },
            TokenKind::End => {},
        }
    }

    /// An expression in parentheses fails only where the grammar is
    /// violated.
    pub proof fn lemma_failure_parens(self, pos: u32)
        ensures
            self.parse_parens(pos) matches Err(failure) ==> failure.at_violation() || (
            failure.state == self && self.next.typ != TokenKind::OpSingle('(')),
        decreases self.weight(), 0nat,
    {
        if self.next.typ == TokenKind::OpSingle('(') {
            self.lemma_consume_weight();
            if let Ok(s) = self.consume() {
                s.with_op(sentinel(), pos).lemma_failure_e();
            }
        }
    }
}

/// Errors are for violations of the grammar only. The parse of a text
/// fails only where the lexer fails, where an operand must start and no
/// operand starts with the lookahead, or where `)` or the end of the text
/// must stand and the lookahead is another token.
pub proof fn lemma_failure_is_a_violation(text: Seq<char>)
    ensures
        initial(text) matches Err(e) ==> e !is Parse,
        initial(text) matches Ok(s) ==> match s.parse_e() {
            Ok(t) => t.expect(TokenKind::End) matches Err(failure) ==> failure.at_violation(),
            Err(failure) => failure.at_violation(),
        },
{
    if let Ok(s) = initial(text) {
        s.lemma_failure_e();
    }
}

/// A text that is accepted is read to its end, and without an error of the
/// lexer: the parse ends with `End` as the lookahead, at the position that is
/// the number of characters of the text, and with nothing left to read. One
/// subtree is then left on the expression stack, and the marker of the
/// outermost scope on the operator stack.
pub proof fn lemma_accepted_text_is_read_to_its_end(text: Seq<char>)
    requires
        text.len() <= u32::MAX,
    ensures
        parse_text(text) is Ok <==> run(text) is Ok,
        run(text) matches Ok(s) ==> {
            &&& s.next == TokenView { typ: TokenKind::End, pos: text.len() as u32 }
            &&& s.lexer.rest.len() == 0
            &&& s.lexer.pos == text.len()
            &&& s.lexer.error is None
            &&& s.exps.len() == 1
            &&& s.ops == seq![(sentinel(), 0u32)]
        },
{
    lemma_run(text);
}

/// The tree of a text that is accepted is well formed: every position in it
/// lies within the text, every numeric literal in it is a decimal literal,
/// every name in it is an identifier, and every operator in it is in the
/// table.
pub proof fn lemma_tree_is_well_formed(text: Seq<char>)
    requires
        text.len() <= u32::MAX,
    ensures
        parse_text(text) matches Ok(tree) ==> tree.well_formed(text.len() as int),
{
    lemma_run(text);
    if let Ok(s) = run(text) {
        assert(s.exps[0].well_formed(text.len() as int));
    }
}

/// The state in which the parse of a text ends is in order.
proof fn lemma_run(text: Seq<char>)
    requires
        text.len() <= u32::MAX,
    ensures
        run(text) matches Ok(s) ==> {
            &&& s.stacks_ok()
            &&& s.input_ok()
            &&& s.lexer.end_pos() == text.len()
            &&& s.next.typ is End
            &&& s.exps.len() == 1
            &&& s.ops == seq![(sentinel(), 0u32)]
        },
{
    lemma_next_token(LexerState::start(text));
    if let Ok(s) = initial(text) {
        assert(s.ops.take(1) =~= s.ops);
        reveal_with_fuel(binary_count, 2);
        s.lemma_parse_e();
        if let Ok(t) = s.parse_e() {
            t.lemma_consume();
            lemma_next_token(t.lexer);
        }
    }
}

} // verus!

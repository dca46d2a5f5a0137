//! The tree of a text keeps precedence and associativity: an operator that
//! binds tighter lies deeper in the tree.

use crate::ast::{Tree, TreeType};
use crate::grammar::{initial, parse_text, ParserState};
use crate::grammar_proofs::{binary_count, entry_ok, lemma_stack_push};
use crate::lexer::{lemma_next_token, LexerState, TokenKind};
use crate::operators::{binds_tighter, lemma_lookup, lookup, sentinel, Op, OpType};
use vstd::prelude::*;

verus! {

impl Tree {
    /// The operator at the root of the tree, where the root is the node of
    /// an operator.
    pub open spec fn root_op(self) -> Option<Op> {
        match self.typ {
            TreeType::Binary(ch, _, _) => lookup(ch, OpType::Binary),
            TreeType::Prefix(ch, _) => lookup(ch, OpType::Prefix),
            TreeType::Postfix(ch, _) => lookup(ch, OpType::Postfix),
            _ => None,
        }
    }

    /// Whether the tree can stand to the left of `op` as its operand: a
    /// binary or prefix operator at its root binds tighter than `op`.
    pub open spec fn yields_to(self, op: Op) -> bool {
        match self.root_op() {
            Some(root) => root.typ == OpType::Postfix || binds_tighter(root, op),
            None => true,
        }
    }

    /// Whether the tree can stand to the right of `op` as its operand: `op`
    /// does not bind tighter than a binary or postfix operator at its root. A
    /// prefix operator at its root is in order whatever `op` is: it starts
    /// the operand.
    pub open spec fn holds_against(self, op: Op) -> bool {
        match self.root_op() {
            Some(root) => root.typ == OpType::Prefix || !binds_tighter(op, root),
            None => true,
        }
    }

    /// Whether the tree keeps precedence and associativity. At the node of
    /// an operator, a binary or prefix operator at the root of the operand to
    /// the left binds tighter than the operator of the node, and the operator
    /// of the node does not bind tighter than a binary or postfix operator at
    /// the root of the operand to the right.
    pub open spec fn shaped(self) -> bool
        decreases self,
    {
        match self.typ {
            TreeType::Number(_) => true,
            TreeType::Ident(_) => true,
            TreeType::Func(_, arg) => arg.shaped(),
            TreeType::Parens(arg) => arg.shaped(),
            TreeType::Binary(ch, left, right) => {
                &&& left.shaped()
                &&& right.shaped()
                &&& lookup(ch, OpType::Binary) matches Some(op)
                &&& left.yields_to(op)
                &&& right.holds_against(op)
            },
            TreeType::Prefix(ch, arg) => {
                &&& arg.shaped()
                &&& lookup(ch, OpType::Prefix) matches Some(op)
                &&& arg.holds_against(op)
            },
            TreeType::Postfix(ch, arg) => {
                &&& arg.shaped()
                &&& lookup(ch, OpType::Postfix) matches Some(op)
                &&& arg.yields_to(op)
            },
        }
    }
}

/// Whether no operator on the stack binds tighter than a binary or postfix
/// operator above it.
pub open spec fn chain_ok(ops: Seq<(Op, u32)>) -> bool {
    forall|i: int|
        0 < i < ops.len() ==> (#[trigger] ops[i]).0.typ == OpType::Sentinel || ops[i].0.typ
            == OpType::Prefix || !binds_tighter(ops[i - 1].0, ops[i].0)
}

/// Whether the left operand of every binary operator on the stack can stand
/// to its left. The left operand of the binary operator that is the `k`-th
/// from the bottom is the `k`-th subtree from the bottom.
pub open spec fn left_ok(ops: Seq<(Op, u32)>, exps: Seq<Tree>) -> bool
    decreases ops.len(),
{
    if ops.len() == 0 {
        true
    } else {
        &&& ops.last().0.typ == OpType::Binary ==> binary_count(ops) <= exps.len() && exps[binary_count(
            ops,
        ) - 1].yields_to(ops.last().0)
        &&& left_ok(ops.drop_last(), exps)
    }
}

/// `left_ok` looks at as many subtrees as there are binary operators.
pub proof fn lemma_left_ok_agrees(ops: Seq<(Op, u32)>, a: Seq<Tree>, b: Seq<Tree>)
    requires
        binary_count(ops) <= a.len(),
        binary_count(ops) <= b.len(),
        forall|i: int| 0 <= i < binary_count(ops) ==> a[i] == b[i],
    ensures
        left_ok(ops, a) == left_ok(ops, b),
    decreases ops.len(),
{
    if ops.len() > 0 {
        lemma_stack_push(ops.drop_last(), ops.last());
        assert(ops.drop_last().push(ops.last()) =~= ops);
        lemma_left_ok_agrees(ops.drop_last(), a, b);
    }
}

impl ParserState {
    /// Whether the two stacks keep precedence and associativity: no operator
    /// binds tighter than the one above it, every subtree is shaped, every
    /// binary operator has a left operand that can stand to its left, and a
    /// subtree on top that no binary operator waits for can stand to the
    /// right of a binary or prefix operator on top.
    pub open spec fn shaped(self) -> bool {
        &&& chain_ok(self.ops)
        &&& forall|i: int| 0 <= i < self.exps.len() ==> (#[trigger] self.exps[i]).shaped()
        &&& left_ok(self.ops, self.exps)
        &&& self.surplus() == 1 && (self.ops.last().0.typ == OpType::Binary
            || self.ops.last().0.typ == OpType::Prefix) ==> self.exps.last().holds_against(
            self.ops.last().0,
        )
    }

    /// Whether the subtree on top has no binary or prefix operator at its
    /// root: it can stand to the left of any operator.
    pub open spec fn calm(self) -> bool {
        self.exps.len() > 0 && match self.exps.last().root_op() {
            Some(root) => root.typ == OpType::Postfix,
            None => true,
        }
    }

    /// Applying the operator on top of the stack keeps the shape of the
    /// stacks. The new subtree has that operator at its root.
    pub proof fn lemma_shape_reduce(self)
        requires
            self.stacks_ok(),
            self.can_reduce(),
            self.surplus() == 1,
            self.shaped(),
            self.ops.last().0.typ == OpType::Postfix ==> self.exps.last().yields_to(
                self.ops.last().0,
            ),
        ensures
            self.reduce().shaped(),
            self.reduce().exps.last().root_op() == Some(self.ops.last().0),
    {
        self.lemma_reduce();
        let after = self.reduce();
        let top = self.ops[self.ops.len() - 1];
        let op = top.0;
        let ops = self.ops.drop_last();
        lemma_stack_push(ops, top);
        assert(ops.push(top) =~= self.ops);
        assert(entry_ok(top, self.lexer.end_pos()));
        let n = self.exps.len() as int;
        assert(self.exps[n - 1].shaped());
        if op.typ == OpType::Binary {
            assert(self.exps[n - 2].shaped());
        }
        assert forall|i: int| 0 <= i < after.exps.len() implies (#[trigger] after.exps[i]).shaped() by {
            if i < after.exps.len() - 1 {
                assert(after.exps[i] == self.exps[i]);
            }
        }
        assert(chain_ok(ops)) by {
            assert forall|i: int| 0 < i < ops.len() implies (#[trigger] ops[i]).0.typ
                == OpType::Sentinel || ops[i].0.typ == OpType::Prefix || !binds_tighter(
                ops[i - 1].0,
                ops[i].0,
            ) by {
                assert(ops[i] == self.ops[i]);
                assert(ops[i - 1] == self.ops[i - 1]);
            }
        }
        lemma_left_ok_agrees(ops, self.exps, after.exps);
        if ops.len() > 0 && ops.last().0.typ != OpType::Sentinel {
            assert(ops.last() == self.ops[self.ops.len() - 2]);
        }
    }
}

impl ParserState {
    /// Pushing a binary or a postfix operator keeps the shape of the stacks.
    /// The subtree that is then on top can stand to the left of the
    /// operator.
    pub proof fn lemma_shape_push(self, op: Op, pos: u32)
        requires
            self.stacks_ok(),
            self.surplus() == 1,
            self.shaped(),
            self.tidy(),
            self.exps.last().yields_to(op),
            op.prec >= 1,
            op.typ == OpType::Binary || op.typ == OpType::Postfix,
            entry_ok((op, pos), self.lexer.end_pos()),
        ensures
            self.push_operator(op, pos).shaped(),
            self.push_operator(op, pos).exps.len() > 0,
            self.push_operator(op, pos).exps.last().yields_to(op),
        decreases self.ops.len(),
    {
        let top = self.ops[self.ops.len() - 1];
        if binds_tighter(top.0, op) {
            self.lemma_top_reducible();
            assert(entry_ok(top, self.lexer.end_pos()));
            self.lemma_shape_reduce();
            self.lemma_reduce();
            assert(self.reduce().tidy()) by {
                assert forall|i: int| 0 <= i < self.reduce().ops.len() implies (
                #[trigger] self.reduce().ops[i]).0.typ != OpType::Postfix by {
                    assert(self.reduce().ops[i] == self.ops[i]);
                }
            }
            self.reduce().lemma_shape_push(op, pos);
        } else {
            let pushed = self.with_op(op, pos);
            lemma_stack_push(self.ops, (op, pos));
            assert(pushed.ops.drop_last() =~= self.ops);
            assert(chain_ok(pushed.ops)) by {
                assert forall|i: int| 0 < i < pushed.ops.len() implies (
                #[trigger] pushed.ops[i]).0.typ == OpType::Sentinel || pushed.ops[i].0.typ
                    == OpType::Prefix || !binds_tighter(pushed.ops[i - 1].0, pushed.ops[i].0) by {
                    if i < self.ops.len() {
                        assert(pushed.ops[i] == self.ops[i]);
                        assert(pushed.ops[i - 1] == self.ops[i - 1]);
                    }
                }
            }
        }
    }

    /// A subtree that is shaped and has no operator at its root keeps the
    /// shape of the stacks where it goes on the expression stack.
    pub proof fn lemma_shape_with_exp(self, typ: TreeType, pos: u32)
        requires
            self.surplus() == 0,
            self.shaped(),
            (Tree { typ, pos }).shaped(),
            (Tree { typ, pos }).root_op() is None,
        ensures
            self.with_exp(typ, pos).shaped(),
            self.with_exp(typ, pos).calm(),
    {
        let after = self.with_exp(typ, pos);
        assert forall|i: int| 0 <= i < after.exps.len() implies (#[trigger] after.exps[i]).shaped() by {
            if i < self.exps.len() {
                assert(after.exps[i] == self.exps[i]);
            }
        }
        lemma_left_ok_agrees(self.ops, self.exps, after.exps);
    }

    /// A prefix operator keeps the shape of the stacks where it goes on the
    /// operator stack. So does a marker.
    pub proof fn lemma_shape_with_op(self, op: Op, pos: u32)
        requires
            self.ops.len() > 0,
            self.surplus() == 0,
            self.shaped(),
            op.typ == OpType::Sentinel || op.typ == OpType::Prefix,
        ensures
            self.with_op(op, pos).shaped(),
    {
        let pushed = self.with_op(op, pos);
        lemma_stack_push(self.ops, (op, pos));
        assert(pushed.ops.drop_last() =~= self.ops);
        assert(chain_ok(pushed.ops)) by {
            assert forall|i: int| 0 < i < pushed.ops.len() implies (#[trigger] pushed.ops[i]).0.typ
                == OpType::Sentinel || pushed.ops[i].0.typ == OpType::Prefix || !binds_tighter(
                pushed.ops[i - 1].0,
                pushed.ops[i].0,
            ) by {
                if i < self.ops.len() {
                    assert(pushed.ops[i] == self.ops[i]);
                    assert(pushed.ops[i - 1] == self.ops[i - 1]);
                }
            }
        }
    }

    /// Draining keeps the shape of the stacks.
    pub proof fn lemma_shape_drain(self)
        requires
            self.stacks_ok(),
            self.surplus() == 1,
            self.shaped(),
            self.tidy(),
        ensures
            self.drain().shaped(),
        decreases self.ops.len(),
    {
        self.lemma_top_reducible();
        if self.can_reduce() {
            self.lemma_shape_reduce();
            self.lemma_reduce();
            assert(self.reduce().tidy()) by {
                assert forall|i: int| 0 <= i < self.reduce().ops.len() implies (
                #[trigger] self.reduce().ops[i]).0.typ != OpType::Postfix by {
                    assert(self.reduce().ops[i] == self.ops[i]);
                }
            }
            self.reduce().lemma_shape_drain();
        }
    }

    /// The stacks keep their shape where a scope ends: the marker leaves
    /// the operator stack, and the subtree of the scope the expression stack.
    pub proof fn lemma_shape_close_scope(self)
        requires
            self.stacks_ok(),
            self.surplus() == 1,
            self.shaped(),
            self.ops.len() >= 2,
            self.ops.last().0.typ == OpType::Sentinel,
        ensures
            (ParserState { ops: self.ops.drop_last(), exps: self.exps.drop_last(), ..self }).shaped(),
            self.exps.last().shaped(),
    {
        let ops = self.ops.drop_last();
        let exps = self.exps.drop_last();
        lemma_stack_push(ops, self.ops.last());
        assert(ops.push(self.ops.last()) =~= self.ops);
        assert(self.exps[self.exps.len() - 1].shaped());
        assert forall|i: int| 0 <= i < exps.len() implies (#[trigger] exps[i]).shaped() by {
            assert(exps[i] == self.exps[i]);
        }
        assert(chain_ok(ops)) by {
            assert forall|i: int| 0 < i < ops.len() implies (#[trigger] ops[i]).0.typ
                == OpType::Sentinel || ops[i].0.typ == OpType::Prefix || !binds_tighter(
                ops[i - 1].0,
                ops[i].0,
            ) by {
                assert(ops[i] == self.ops[i]);
                assert(ops[i - 1] == self.ops[i - 1]);
            }
        }
        lemma_left_ok_agrees(ops, self.exps, exps);
    }

    /// An expression keeps the shape of the stacks.
    pub proof fn lemma_shape_e(self)
        requires
            self.stacks_ok(),
            self.input_ok(),
            self.surplus() == 0,
            self.shaped(),
            self.tidy(),
        ensures
            self.parse_e() matches Ok(s) ==> s.shaped(),
        decreases self.weight(), 8nat,
    {
        self.lemma_parse_p();
        self.lemma_spell_p();
        self.lemma_shape_p();
        if let Ok(s) = self.parse_p() {
            s.lemma_parse_ops();
            s.lemma_spell_ops();
            s.lemma_shape_ops();
            if let Ok(t) = s.parse_ops() {
                t.lemma_shape_drain();
            }
        }
    }

    /// The parts behind a primary keep the shape of the stacks.
    pub proof fn lemma_shape_ops(self)
        requires
            self.stacks_ok(),
            self.input_ok(),
            self.surplus() == 1,
            self.shaped(),
            self.calm(),
            self.tidy(),
        ensures
            self.parse_ops() matches Ok(s) ==> s.shaped() && s.calm(),
        decreases self.weight(), 6nat,
    {
        self.lemma_parse_op();
        self.lemma_spell_op();
        self.lemma_shape_op();
        if let Some(Ok(s)) = self.parse_op() {
            s.lemma_shape_ops();
        }
    }

    /// One part behind a primary keeps the shape of the stacks.
    pub proof fn lemma_shape_op(self)
        requires
            self.stacks_ok(),
            self.input_ok(),
            self.surplus() == 1,
            self.shaped(),
            self.calm(),
            self.tidy(),
        ensures
            self.parse_op() matches Some(Ok(s)) ==> s.shaped() && s.calm(),
        decreases self.weight(), 4nat,
    {
        if let TokenKind::OpSingle(ch) = self.next.typ {
            let pos = self.next.pos;
            lemma_lookup(ch, OpType::Binary);
            lemma_lookup(ch, OpType::Postfix);
            if let Some(op) = lookup(ch, OpType::Binary) {
                self.lemma_can_push(op);
                self.lemma_push(op, pos);
                self.lemma_shape_push(op, pos);
                self.lemma_spell_push(op, pos);
                let pushed = self.push_operator(op, pos);
                assert(pushed.tidy()) by {
                    assert forall|i: int| 0 <= i < pushed.ops.len() implies (
                    #[trigger] pushed.ops[i]).0.typ != OpType::Postfix by {
                        if i < pushed.ops.len() - 1 {
                            assert(pushed.ops[i] == pushed.ops.drop_last()[i]);
                        }
                    }
                }
                pushed.lemma_consume();
                if let Ok(s) = pushed.consume() {
                    assert(s.shaped());
                    assert(s.tidy());
                    s.lemma_shape_p();
                }
            } else if let Some(op) = lookup(ch, OpType::Postfix) {
                self.lemma_can_push(op);
                self.lemma_push(op, pos);
                self.lemma_shape_push(op, pos);
                let pushed = self.push_operator(op, pos);
                pushed.lemma_shape_reduce();
                pushed.lemma_reduce();
                let applied = pushed.reduce();
                applied.lemma_consume();
                if let Ok(s) = applied.consume() {
                    assert(s.shaped());
                    assert(s.calm());
                }
            }
        }
    }

    /// A primary keeps the shape of the stacks, and its subtree has
    /// no binary or prefix operator at its root.
    pub proof fn lemma_shape_p(self)
        requires
            self.stacks_ok(),
            self.input_ok(),
            self.surplus() == 0,
            self.shaped(),
            self.tidy(),
        ensures
            self.parse_p() matches Ok(s) ==> s.shaped() && s.calm(),
        decreases self.weight(), 2nat,
    {
        let pos = self.next.pos;
        match self.next.typ {
            TokenKind::Number(lit) => {
                self.lemma_shape_with_exp(TreeType::Number(lit), pos);
                self.lemma_with_exp(TreeType::Number(lit), pos);
                self.with_exp(TreeType::Number(lit), pos).lemma_consume();
            },
            TokenKind::Ident(name) => {
                self.lemma_consume();
                if let Ok(s) = self.consume() {
                    assert(s.shaped());
                    assert(s.tidy());
                    if s.next.typ == TokenKind::OpSingle('(') {
                        s.lemma_parse_parens(pos);
                        s.lemma_shape_parens(pos);
                        if let Ok(t) = s.parse_parens(pos) {
                            t.0.lemma_shape_with_exp(TreeType::Func(name, Box::new(t.1)), pos);
                        }
                    } else {
                        s.lemma_shape_with_exp(TreeType::Ident(name), pos);
                    }
                }
            },
            TokenKind::OpSingle(ch) => {
                if ch == '(' {
                    self.lemma_parse_parens(pos);
                    self.lemma_shape_parens(pos);
                    if let Ok(t) = self.parse_parens(pos) {
                        t.0.lemma_shape_with_exp(TreeType::Parens(Box::new(t.1)), pos);
                    }
                } else if let Some(op) = lookup(ch, OpType::Prefix) {
                    lemma_lookup(ch, OpType::Prefix);
                    self.lemma_with_op(op, pos);
                    self.lemma_shape_with_op(op, pos);
                    let pushed = self.with_op(op, pos);
                    assert(pushed.tidy()) by {
                        assert forall|i: int| 0 <= i < pushed.ops.len() implies (
                        #[trigger] pushed.ops[i]).0.typ != OpType::Postfix by {
                            if i < self.ops.len() {
                                assert(pushed.ops[i] == self.ops[i]);
                            }
                        }
                    }
                    pushed.lemma_consume();
                    if let Ok(s) = pushed.consume() {
                        assert(s.shaped());
                        assert(s.tidy());
                        s.lemma_shape_p();
                    }
                }
            },
            TokenKind::End => {},
        }
    }

    /// An expression in parentheses keeps the shape of the stacks,
    /// and its subtree is shaped.
    pub proof fn lemma_shape_parens(self, pos: u32)
        requires
            self.stacks_ok(),
            self.input_ok(),
            self.surplus() == 0,
            self.shaped(),
            self.tidy(),
        ensures
            self.parse_parens(pos) matches Ok(r) ==> r.0.shaped() && r.1.shaped(),
        decreases self.weight(), 0nat,
    {
        if self.next.typ == TokenKind::OpSingle('(') {
            self.lemma_consume();
            if let Ok(s) = self.consume() {
                assert(s.shaped());
                assert(s.tidy());
                let opened = s.with_op(sentinel(), pos);
                s.lemma_open_scope(pos);
                s.lemma_spell_open_scope(pos);
                s.lemma_shape_with_op(sentinel(), pos);
                opened.lemma_parse_e();
                opened.lemma_shape_e();
                if let Ok(t) = opened.parse_e() {
                    if t.next.typ == TokenKind::OpSingle(')') {
                        t.lemma_consume();
                        if let Ok(u) = t.consume() {
                            assert(u.shaped());
                            assert(u.ops =~= s.ops.push((sentinel(), pos)));
                            u.lemma_shape_close_scope();
                        }
                    }
                }
            }
        }
    }
}

/// The tree keeps precedence and associativity. Where a text is accepted,
/// the tree is shaped: at every node of an operator, a binary or prefix
/// operator at the root of the operand to the left binds tighter than the
/// operator of the node, and the operator of the node does not bind tighter
/// than a binary or postfix operator at the root of the operand to the
/// right.
pub proof fn lemma_tree_is_shaped(text: Seq<char>)
    requires
        text.len() <= u32::MAX,
    ensures
        parse_text(text) matches Ok(tree) ==> tree.shaped(),
{
    lemma_next_token(LexerState::start(text));
    if let Ok(s) = initial(text) {
        assert(s.ops.take(1) =~= s.ops);
        reveal_with_fuel(binary_count, 2);
        reveal_with_fuel(left_ok, 2);
        assert(s.shaped());
        assert(s.tidy());
        s.lemma_parse_e();
        s.lemma_shape_e();
        if let Ok(t) = s.parse_e() {
            if t.next.typ is End {
                t.lemma_consume();
                if let Ok(u) = t.consume() {
                    assert(u.exps[u.exps.len() - 1].shaped());
                }
            }
        }
    }
}

} // verus!

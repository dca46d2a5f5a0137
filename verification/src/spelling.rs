//! The tree of a text spells the tokens of the text, and every node of it
//! has the position of the token that defines it.

use crate::ast::{Tree, TreeType};
use crate::error::ParseErrorView;
use crate::grammar::{initial, parse_text, ParserState};
use crate::grammar_proofs::{base, binary_count, lemma_stack_push};
use crate::lexer::{lemma_next_token, LexerState, TokenKind, TokenView};
use crate::operators::{binds_tighter, lemma_lookup, lookup, sentinel, Op, OpType};
use vstd::prelude::*;

verus! {

impl Tree {
    /// The tokens that the tree stands for, from left to right, each with
    /// the position of the node that it defines. The two parentheses of a
    /// node are part of them, and the name of a function; a parenthesis
    /// that closes has no position in the tree, nor has the one that opens
    /// behind the name of a function.
    pub open spec fn spell(self) -> Seq<Mark>
        decreases self,
    {
        match self.typ {
            TreeType::Number(lit) => seq![mark(TokenKind::Number(lit), self.pos)],
            TreeType::Ident(name) => seq![mark(TokenKind::Ident(name), self.pos)],
            TreeType::Func(name, arg) => seq![
                mark(TokenKind::Ident(name), self.pos),
                unplaced(TokenKind::OpSingle('(')),
            ] + arg.spell() + seq![unplaced(TokenKind::OpSingle(')'))],
            TreeType::Binary(ch, left, right) => left.spell() + seq![
                mark(TokenKind::OpSingle(ch), self.pos),
            ] + right.spell(),
            TreeType::Prefix(ch, arg) => seq![mark(TokenKind::OpSingle(ch), self.pos)]
                + arg.spell(),
            TreeType::Postfix(ch, arg) => arg.spell() + seq![
                mark(TokenKind::OpSingle(ch), self.pos),
            ],
            TreeType::Parens(arg) => seq![mark(TokenKind::OpSingle('('), self.pos)] + arg.spell()
                + seq![unplaced(TokenKind::OpSingle(')'))],
        }
    }
}

/// The tokens that the innermost scope of the two stacks stands for, from
/// left to right: its operators, each binary operator behind its left
/// operand, and its subtrees. The subtree on top of the expression stack
/// comes last where no binary operator waits for it.
pub open spec fn spell_scope(ops: Seq<(Op, u32)>, exps: Seq<Tree>) -> Seq<Mark>
    decreases ops.len(),
{
    if ops.len() == 0 || ops.last().0.typ == OpType::Sentinel {
        if exps.len() > binary_count(ops) {
            exps.last().spell()
        } else {
            Seq::empty()
        }
    } else if ops.last().0.typ == OpType::Postfix {
        spell_scope(ops.drop_last(), exps) + seq![mark_op(ops.last())]
    } else if exps.len() > binary_count(ops) {
        spell_scope(ops.drop_last(), exps.drop_last()) + seq![mark_op(ops.last())]
            + exps.last().spell()
    } else {
        spell_scope(ops.drop_last(), exps) + seq![mark_op(ops.last())]
    }
}

/// The number of binary operators outside the innermost scope is no more
/// than their number on the whole stack, and less where a binary operator is
/// on top.
pub proof fn lemma_count_outside(ops: Seq<(Op, u32)>)
    ensures
        binary_count(ops.take(base(ops) as int)) <= binary_count(ops),
        ops.len() > 0 && ops.last().0.typ == OpType::Binary ==> binary_count(
            ops.take(base(ops) as int),
        ) < binary_count(ops),
        base(ops) <= ops.len(),
    decreases ops.len(),
{
    if ops.len() > 0 {
        lemma_stack_push(ops.drop_last(), ops.last());
        assert(ops.drop_last().push(ops.last()) =~= ops);
        if ops.last().0.typ == OpType::Sentinel {
            assert(ops.take(ops.len() as int) =~= ops);
        } else {
            lemma_count_outside(ops.drop_last());
            assert(ops.take(base(ops) as int) =~= ops.drop_last().take(base(ops) as int));
        }
    } else {
        assert(ops.take(0) =~= ops);
    }
}

/// Three sequences of tokens in a row are the same however they are joined.
pub proof fn lemma_concat3(a: Seq<Mark>, b: Seq<Mark>, c: Seq<Mark>)
    ensures
        (a + b) + c == a + (b + c),
{
    assert((a + b) + c =~= a + (b + c));
}

/// Everything agrees with itself.
pub proof fn lemma_agrees_refl(a: Seq<Mark>)
    ensures
        agrees(a, a),
{
}

/// What agrees with tokens that agree with others agrees with those.
pub proof fn lemma_agrees_trans(a: Seq<Mark>, b: Seq<Mark>, c: Seq<Mark>)
    requires
        agrees(a, b),
        agrees(b, c),
    ensures
        agrees(a, c),
{
    assert forall|i: int| 0 <= i < a.len() implies (#[trigger] a[i]).typ == c[i].typ && (a[i].pos
        is None || a[i].pos == c[i].pos) by {
        assert(b[i].typ == c[i].typ);
    }
}

/// Tokens that agree still agree behind the same tokens.
pub proof fn lemma_agrees_behind(front: Seq<Mark>, a: Seq<Mark>, b: Seq<Mark>)
    requires
        agrees(a, b),
    ensures
        agrees(front + a, front + b),
{
    assert forall|i: int| 0 <= i < (front + a).len() implies (#[trigger] (front + a)[i]).typ == (
    front + b)[i].typ && ((front + a)[i].pos is None || (front + a)[i].pos == (front + b)[i].pos) by {
        if i >= front.len() {
            assert((front + a)[i] == a[i - front.len()]);
            assert((front + b)[i] == b[i - front.len()]);
        }
    }
}

/// A token without a position agrees with the same token at any position.
pub proof fn lemma_agrees_unplaced(front: Seq<Mark>, typ: TokenKind, pos: u32, rest: Seq<Mark>)
    ensures
        agrees(front + (seq![unplaced(typ)] + rest), front + (seq![mark(typ, pos)] + rest)),
{
    let a = seq![unplaced(typ)] + rest;
    let b = seq![mark(typ, pos)] + rest;
    assert(agrees(a, b)) by {
        assert forall|i: int| 0 <= i < a.len() implies (#[trigger] a[i]).typ == b[i].typ && (
        a[i].pos is None || a[i].pos == b[i].pos) by {
            if i > 0 {
                assert(a[i] == rest[i - 1]);
                assert(b[i] == rest[i - 1]);
            }
        }
    }
    lemma_agrees_behind(front, a, b);
}

/// The tokens of an expression in parentheses agree with the tokens that
/// the parser took for it.
pub proof fn lemma_agrees_group(
    open: Mark,
    arg: Seq<Mark>,
    close: u32,
    rest: Seq<Mark>,
    taken: Seq<Mark>,
)
    requires
        agrees(arg + (seq![mark(TokenKind::OpSingle(')'), close)] + rest), taken),
    ensures
        agrees(
            seq![open] + arg + seq![unplaced(TokenKind::OpSingle(')'))] + rest,
            seq![open] + taken,
        ),
{
    lemma_agrees_unplaced(arg, TokenKind::OpSingle(')'), close, rest);
    let blurred = arg + (seq![unplaced(TokenKind::OpSingle(')'))] + rest);
    lemma_agrees_trans(
        blurred,
        arg + (seq![mark(TokenKind::OpSingle(')'), close)] + rest),
        taken,
    );
    lemma_agrees_behind(seq![open], blurred, taken);
    assert(seq![open] + arg + seq![unplaced(TokenKind::OpSingle(')'))] + rest =~= seq![open]
        + blurred);
}

/// The tokens of a function call agree with the name and the tokens that
/// the parser took behind it.
pub proof fn lemma_agrees_call(
    name: Mark,
    open: u32,
    arg: Seq<Mark>,
    rest: Seq<Mark>,
    taken: Seq<Mark>,
)
    requires
        agrees(
            seq![mark(TokenKind::OpSingle('('), open)] + arg + seq![
                unplaced(TokenKind::OpSingle(')')),
            ] + rest,
            taken,
        ),
    ensures
        agrees(
            seq![name, unplaced(TokenKind::OpSingle('('))] + arg + seq![
                unplaced(TokenKind::OpSingle(')')),
            ] + rest,
            seq![name] + taken,
        ),
{
    let tail = arg + seq![unplaced(TokenKind::OpSingle(')'))] + rest;
    lemma_agrees_unplaced(Seq::empty(), TokenKind::OpSingle('('), open, tail);
    let placed = seq![mark(TokenKind::OpSingle('('), open)] + arg + seq![
        unplaced(TokenKind::OpSingle(')')),
    ] + rest;
    let blurred = seq![unplaced(TokenKind::OpSingle('('))] + tail;
    assert(Seq::<Mark>::empty() + (seq![mark(TokenKind::OpSingle('('), open)] + tail) =~= placed);
    assert(Seq::<Mark>::empty() + blurred =~= blurred);
    lemma_agrees_trans(blurred, placed, taken);
    lemma_agrees_behind(seq![name], blurred, taken);
    assert(seq![name, unplaced(TokenKind::OpSingle('('))] + arg + seq![
        unplaced(TokenKind::OpSingle(')')),
    ] + rest =~= seq![name] + blurred);
}

/// A token as a tree stands for it: its type, and its position where a
/// node of the tree holds it.
pub struct Mark {
    pub typ: TokenKind,
    pub pos: Option<u32>,
}

/// The token of the type `typ` at the position `pos`.
pub open spec fn mark(typ: TokenKind, pos: u32) -> Mark {
    Mark { typ, pos: Some(pos) }
}

/// The token of the type `typ`, at whatever position.
pub open spec fn unplaced(typ: TokenKind) -> Mark {
    Mark { typ, pos: None }
}

/// The token of an operator on the operator stack.
pub open spec fn mark_op(entry: (Op, u32)) -> Mark {
    mark(TokenKind::OpSingle(entry.0.ch), entry.1)
}

/// The tokens of a sequence of tokens, each at its position.
pub open spec fn marks(items: Seq<Result<TokenView, ParseErrorView>>) -> Seq<Mark> {
    items.map_values(
        |item: Result<TokenView, ParseErrorView>|
            match item {
                Ok(token) => mark(token.typ, token.pos),
                Err(_) => unplaced(TokenKind::End),
            },
    )
}

/// Whether the tokens `a` agree with the tokens `b`: they are as many, of
/// the same types in the same order, and each one of `a` that has a position
/// has the position of its counterpart.
pub open spec fn agrees(a: Seq<Mark>, b: Seq<Mark>) -> bool {
    &&& a.len() == b.len()
    &&& forall|i: int|
        0 <= i < a.len() ==> (#[trigger] a[i]).typ == b[i].typ && (a[i].pos is None || a[i].pos
            == b[i].pos)
}

impl ParserState {
    /// The tokens that are still to come: the lookahead and what the lexer
    /// has left, up to the end of the text.
    pub open spec fn upcoming(self) -> Seq<Mark> {
        if self.next.typ is End {
            Seq::empty()
        } else {
            seq![mark(self.next.typ, self.next.pos)] + marks(self.lexer.items().0)
        }
    }

    /// The tokens that the innermost scope has taken in and still holds on
    /// the two stacks.
    pub open spec fn spelled(self) -> Seq<Mark> {
        spell_scope(self.ops, self.exps)
    }

    /// The subtrees that belong to the scopes around the innermost one.
    pub open spec fn outer_exps(self) -> Seq<Tree> {
        self.exps.take(binary_count(self.frozen()) as int)
    }

    /// No postfix operator waits on the operator stack.
    pub open spec fn tidy(self) -> bool {
        forall|i: int| 0 <= i < self.ops.len() ==> (#[trigger] self.ops[i]).0.typ != OpType::Postfix
    }

    /// A subtree that goes on the expression stack where an operand must
    /// follow is spelled behind what the scope holds.
    pub proof fn lemma_spell_with_exp(self, typ: TreeType, pos: u32)
        requires
            self.surplus() == 0,
            self.tidy(),
        ensures
            self.with_exp(typ, pos).spelled() == self.spelled() + (Tree { typ, pos }).spell(),
            self.with_exp(typ, pos).outer_exps() == self.outer_exps(),
            self.with_exp(typ, pos).tidy(),
    {
        let tree = Tree { typ, pos };
        let exps = self.exps.push(tree);
        assert(exps.drop_last() =~= self.exps);
        lemma_count_outside(self.ops);
        assert(exps.take(binary_count(self.frozen()) as int) =~= self.exps.take(
            binary_count(self.frozen()) as int,
        ));
        if self.ops.len() == 0 || self.ops.last().0.typ == OpType::Sentinel {
            assert(self.spelled() + tree.spell() =~= tree.spell());
        } else {
            assert(self.ops[self.ops.len() - 1].0.typ != OpType::Postfix);
        }
    }

    /// An operator that goes on the operator stack is spelled behind what
    /// the scope holds: a binary or a postfix operator where a subtree is on
    /// top that no binary operator waits for, a prefix operator where an
    /// operand must follow.
    pub proof fn lemma_spell_with_op(self, op: Op, pos: u32)
        requires
            op.typ != OpType::Sentinel,
            op.typ == OpType::Prefix ==> self.surplus() == 0,
            op.typ != OpType::Prefix ==> self.surplus() == 1,
        ensures
            self.with_op(op, pos).spelled() == self.spelled() + seq![mark_op((op, pos))],
            self.with_op(op, pos).outer_exps() == self.outer_exps(),
            self.with_op(op, pos).surplus() == self.surplus() - if op.typ == OpType::Binary {
                1int
            } else {
                0int
            },
    {
        lemma_stack_push(self.ops, (op, pos));
        let ops = self.ops.push((op, pos));
        assert(ops.drop_last() =~= self.ops);
        assert(ops.take(base(self.ops) as int) =~= self.ops.take(base(self.ops) as int));
    }

    /// Applying the operator on top of the stack changes nothing of what
    /// the scope spells, where a subtree is on top that no binary operator
    /// waits for.
    pub proof fn lemma_spell_reduce(self)
        requires
            self.stacks_ok(),
            self.can_reduce(),
            self.surplus() == 1,
            (ParserState { ops: self.ops.drop_last(), ..self }).tidy(),
        ensures
            self.reduce().spelled() == self.spelled(),
            self.reduce().outer_exps() == self.outer_exps(),
            self.reduce().tidy(),
    {
        self.lemma_reduce();
        let op = self.ops.last().0;
        let pos = self.ops.last().1;
        let ops = self.ops.drop_last();
        lemma_stack_push(ops, self.ops.last());
        assert(ops.push(self.ops.last()) =~= self.ops);
        lemma_count_outside(self.ops);
        lemma_count_outside(ops);
        let right = self.exps.last();
        let below = self.exps.drop_last();
        let floor = binary_count(self.frozen()) as int;
        assert(self.reduce().exps.take(floor) =~= self.exps.take(floor));
        if op.typ == OpType::Binary {
            let left = below.last();
            let under = ParserState { ops, exps: below.drop_last(), ..self };
            under.lemma_spell_with_exp(left.typ, left.pos);
            assert(under.with_exp(left.typ, left.pos).exps =~= below);
            under.lemma_spell_with_exp(
                TreeType::Binary(op.ch, Box::new(left), Box::new(right)),
                pos,
            );
            assert(self.spelled() == spell_scope(ops, below) + seq![mark_op((op, pos))]
                + right.spell());
            assert(self.reduce().spelled() =~= self.spelled());
        } else if op.typ == OpType::Prefix {
            let under = ParserState { ops, exps: below, ..self };
            under.lemma_spell_with_exp(TreeType::Prefix(op.ch, Box::new(right)), pos);
            assert(self.reduce().spelled() =~= self.spelled());
        } else {
            let under = ParserState { ops, exps: below, ..self };
            under.lemma_spell_with_exp(right.typ, right.pos);
            assert(under.with_exp(right.typ, right.pos).exps =~= self.exps);
            under.lemma_spell_with_exp(TreeType::Postfix(op.ch, Box::new(right)), pos);
            assert(self.reduce().spelled() =~= self.spelled());
        }
    }
}

impl ParserState {
    /// The token that is taken leaves what is still to come.
    pub proof fn lemma_spell_consume(self)
        requires
            self.input_ok(),
            self.next.typ !is End,
        ensures
            self.consume() matches Ok(s) ==> self.upcoming() == seq![
                mark(self.next.typ, self.next.pos),
            ] + s.upcoming(),
    {
        if let Ok(s) = self.consume() {
            lemma_next_token(self.lexer);
            let items = self.lexer.items().0;
            if s.next.typ is End {
                assert(marks(items) =~= Seq::empty());
            } else {
                assert(marks(items) =~= seq![mark(s.next.typ, s.next.pos)] + marks(
                    s.lexer.items().0,
                ));
            }
        }
    }

    /// Pushing a binary or a postfix operator spells it behind what the
    /// scope holds.
    pub proof fn lemma_spell_push(self, op: Op, pos: u32)
        requires
            self.stacks_ok(),
            self.surplus() == 1,
            self.tidy(),
            op.prec >= 1,
            op.typ == OpType::Binary || op.typ == OpType::Postfix,
        ensures
            self.push_operator(op, pos).spelled() == self.spelled() + seq![mark_op((op, pos))],
            self.push_operator(op, pos).outer_exps() == self.outer_exps(),
            (ParserState { ops: self.push_operator(op, pos).ops.drop_last(), ..self }).tidy(),
        decreases self.ops.len(),
    {
        if binds_tighter(self.ops.last().0, op) {
            self.lemma_top_reducible();
            assert((ParserState { ops: self.ops.drop_last(), ..self }).tidy()) by {
                assert forall|i: int| 0 <= i < self.ops.drop_last().len() implies (
                #[trigger] self.ops.drop_last()[i]).0.typ != OpType::Postfix by {
                    assert(self.ops.drop_last()[i] == self.ops[i]);
                }
            }
            self.lemma_spell_reduce();
            self.lemma_reduce();
            self.reduce().lemma_spell_push(op, pos);
        } else {
            self.lemma_spell_with_op(op, pos);
            assert(self.ops.push((op, pos)).drop_last() =~= self.ops);
        }
    }

    /// Draining changes nothing of what the scope spells: in the end that
    /// is the one subtree of the scope.
    pub proof fn lemma_spell_drain(self)
        requires
            self.stacks_ok(),
            self.surplus() == 1,
            self.tidy(),
        ensures
            self.drain().spelled() == self.spelled(),
            self.drain().spelled() == self.drain().exps.last().spell(),
            self.drain().outer_exps() == self.outer_exps(),
            self.drain().tidy(),
        decreases self.ops.len(),
    {
        self.lemma_top_reducible();
        if self.can_reduce() {
            assert((ParserState { ops: self.ops.drop_last(), ..self }).tidy()) by {
                assert forall|i: int| 0 <= i < self.ops.drop_last().len() implies (
                #[trigger] self.ops.drop_last()[i]).0.typ != OpType::Postfix by {
                    assert(self.ops.drop_last()[i] == self.ops[i]);
                }
            }
            self.lemma_spell_reduce();
            self.lemma_reduce();
            self.reduce().lemma_spell_drain();
        }
    }
}

impl ParserState {
    /// A new scope holds nothing yet, and all subtrees lie outside it.
    pub proof fn lemma_spell_open_scope(self, pos: u32)
        requires
            self.stacks_ok(),
            self.surplus() == 0,
            self.tidy(),
        ensures
            self.with_op(sentinel(), pos).spelled() == Seq::<Mark>::empty(),
            self.with_op(sentinel(), pos).outer_exps() == self.exps,
            self.with_op(sentinel(), pos).tidy(),
    {
        self.lemma_open_scope(pos);
        let opened = self.with_op(sentinel(), pos);
        lemma_stack_push(self.ops, (sentinel(), pos));
        assert(opened.frozen() =~= opened.ops);
        assert(self.exps.take(self.exps.len() as int) =~= self.exps);
        assert forall|i: int| 0 <= i < opened.ops.len() implies (#[trigger] opened.ops[i]).0.typ
            != OpType::Postfix by {
            if i < self.ops.len() {
                assert(opened.ops[i] == self.ops[i]);
            }
        }
    }

    /// An expression is spelled by its subtree: what its scope holds
    /// and what is still to come agree with the tokens that they were before.
    /// Where it starts a scope, it leaves the operator stack as it was, and
    /// the expression stack with its one subtree on top of what was there.
    pub proof fn lemma_spell_e(self)
        requires
            self.stacks_ok(),
            self.input_ok(),
            self.surplus() == 0,
            self.tidy(),
        ensures
            self.parse_e() matches Ok(s) ==> {
                &&& s.tidy()
                &&& s.outer_exps() == self.outer_exps()
                &&& agrees(s.spelled() + s.upcoming(), self.spelled() + self.upcoming())
                &&& s.spelled() == s.exps.last().spell()
                &&& self.ops.last().0.typ == OpType::Sentinel ==> s.ops == self.ops
                    && s.exps.drop_last() == self.exps
            },
        decreases self.weight(), 8nat,
    {
        if self.ops.last().0.typ == OpType::Sentinel {
            lemma_stack_push(self.ops.drop_last(), self.ops.last());
            assert(self.ops.drop_last().push(self.ops.last()) =~= self.ops);
            assert(self.frozen() =~= self.ops);
            assert(self.outer_exps() =~= self.exps);
        }
        self.lemma_parse_p();
        self.lemma_spell_p();
        if let Ok(s) = self.parse_p() {
            s.lemma_parse_ops();
            s.lemma_spell_ops();
            if let Ok(t) = s.parse_ops() {
                t.lemma_spell_drain();
                t.lemma_drain();
                assert(t.drain().upcoming() == t.upcoming());
                lemma_agrees_trans(
                    t.spelled() + t.upcoming(),
                    s.spelled() + s.upcoming(),
                    self.spelled() + self.upcoming(),
                );
            }
        }
    }

    /// The parts behind a primary are spelled as they are taken in.
    pub proof fn lemma_spell_ops(self)
        requires
            self.stacks_ok(),
            self.input_ok(),
            self.surplus() == 1,
            self.tidy(),
        ensures
            self.parse_ops() matches Ok(s) ==> {
                &&& s.tidy()
                &&& s.outer_exps() == self.outer_exps()
                &&& agrees(s.spelled() + s.upcoming(), self.spelled() + self.upcoming())
            },
        decreases self.weight(), 6nat,
    {
        self.lemma_parse_op();
        self.lemma_spell_op();
        lemma_agrees_refl(self.spelled() + self.upcoming());
        if let Some(Ok(s)) = self.parse_op() {
            s.lemma_spell_ops();
            if let Ok(t) = s.parse_ops() {
                lemma_agrees_trans(
                    t.spelled() + t.upcoming(),
                    s.spelled() + s.upcoming(),
                    self.spelled() + self.upcoming(),
                );
            }
        }
    }

    /// One part behind a primary is spelled as it is taken in.
    #[verifier::rlimit(30)]
    pub proof fn lemma_spell_op(self)
        requires
            self.stacks_ok(),
            self.input_ok(),
            self.surplus() == 1,
            self.tidy(),
        ensures
            self.parse_op() matches Some(Ok(s)) ==> {
                &&& s.tidy()
                &&& s.outer_exps() == self.outer_exps()
                &&& agrees(s.spelled() + s.upcoming(), self.spelled() + self.upcoming())
            },
        decreases self.weight(), 4nat,
    {
        if let TokenKind::OpSingle(ch) = self.next.typ {
            lemma_lookup(ch, OpType::Binary);
            lemma_lookup(ch, OpType::Postfix);
            if let Some(op) = lookup(ch, OpType::Binary) {
                self.lemma_spell_pushed(op);
                let pushed = self.push_operator(op, self.next.pos);
                if let Ok(s) = pushed.consume() {
                    s.lemma_parse_p();
                    s.lemma_spell_p();
                }
            } else if let Some(op) = lookup(ch, OpType::Postfix) {
                self.lemma_spell_applied(op);
                lemma_agrees_refl(self.spelled() + self.upcoming());
            }
        }
    }

    /// A binary operator that is pushed and taken from the input is spelled
    /// behind what the scope holds.
    proof fn lemma_spell_pushed(self, op: Op)
        requires
            self.stacks_ok(),
            self.input_ok(),
            self.surplus() == 1,
            self.tidy(),
            self.next.typ == TokenKind::OpSingle(op.ch),
            lookup(op.ch, OpType::Binary) == Some(op),
        ensures
            self.push_operator(op, self.next.pos).consume() matches Ok(s) ==> {
                &&& s.stacks_ok()
                &&& s.input_ok()
                &&& s.surplus() == 0
                &&& s.tidy()
                &&& s.weight() < self.weight()
                &&& s.outer_exps() == self.outer_exps()
                &&& s.spelled() + s.upcoming() == self.spelled() + self.upcoming()
            },
    {
        let pos = self.next.pos;
        lemma_lookup(op.ch, OpType::Binary);
        self.lemma_can_push(op);
        self.lemma_push(op, pos);
        self.lemma_spell_push(op, pos);
        let pushed = self.push_operator(op, pos);
        assert(pushed.tidy()) by {
            assert forall|i: int| 0 <= i < pushed.ops.len() implies (#[trigger] pushed.ops[i]).0.typ
                != OpType::Postfix by {
                if i < pushed.ops.len() - 1 {
                    assert(pushed.ops[i] == pushed.ops.drop_last()[i]);
                }
            }
        }
        pushed.lemma_consume();
        pushed.lemma_spell_consume();
        if let Ok(s) = pushed.consume() {
            assert(s.spelled() == pushed.spelled());
            assert(s.outer_exps() == pushed.outer_exps());
            assert(pushed.upcoming() == self.upcoming());
            lemma_concat3(self.spelled(), seq![mark_op((op, pos))], s.upcoming());
        }
    }

    /// A postfix operator that is pushed, applied and taken from the input
    /// is spelled behind what the scope holds.
    proof fn lemma_spell_applied(self, op: Op)
        requires
            self.stacks_ok(),
            self.input_ok(),
            self.surplus() == 1,
            self.tidy(),
            self.next.typ == TokenKind::OpSingle(op.ch),
            lookup(op.ch, OpType::Postfix) == Some(op),
        ensures
            self.push_operator(op, self.next.pos).reduce().consume() matches Ok(s) ==> {
                &&& s.tidy()
                &&& s.outer_exps() == self.outer_exps()
                &&& s.spelled() + s.upcoming() == self.spelled() + self.upcoming()
            },
    {
        let pos = self.next.pos;
        lemma_lookup(op.ch, OpType::Postfix);
        self.lemma_can_push(op);
        self.lemma_push(op, pos);
        self.lemma_spell_push(op, pos);
        let pushed = self.push_operator(op, pos);
        pushed.lemma_spell_reduce();
        pushed.lemma_reduce();
        let applied = pushed.reduce();
        applied.lemma_consume();
        applied.lemma_spell_consume();
        if let Ok(s) = applied.consume() {
            assert(s.spelled() == applied.spelled());
            assert(s.outer_exps() == applied.outer_exps());
            assert(applied.upcoming() == self.upcoming());
            lemma_concat3(self.spelled(), seq![mark_op((op, pos))], s.upcoming());
        }
    }

    /// A primary is spelled as it is taken in.
    #[verifier::rlimit(30)]
    pub proof fn lemma_spell_p(self)
        requires
            self.stacks_ok(),
            self.input_ok(),
            self.surplus() == 0,
            self.tidy(),
        ensures
            self.parse_p() matches Ok(s) ==> {
                &&& s.tidy()
                &&& s.outer_exps() == self.outer_exps()
                &&& agrees(s.spelled() + s.upcoming(), self.spelled() + self.upcoming())
            },
        decreases self.weight(), 2nat,
    {
        let pos = self.next.pos;
        let word = seq![mark(self.next.typ, pos)];
        lemma_agrees_refl(self.spelled() + self.upcoming());
        match self.next.typ {
            TokenKind::Number(lit) => {
                self.lemma_spell_leaf(TreeType::Number(lit));
            },
            TokenKind::Ident(name) => {
                self.lemma_consume();
                self.lemma_spell_consume();
                if let Ok(s) = self.consume() {
                    if s.next.typ == TokenKind::OpSingle('(') {
                        s.lemma_spell_call(name, pos);
                    } else {
                        s.lemma_spell_with_exp(TreeType::Ident(name), pos);
                        lemma_concat3(self.spelled(), word, s.upcoming());
                    }
                }
            },
            TokenKind::OpSingle(ch) => {
                if ch == '(' {
                    self.lemma_spell_group();
                } else if let Some(op) = lookup(ch, OpType::Prefix) {
                    lemma_lookup(ch, OpType::Prefix);
                    self.lemma_spell_prefix(op);
                    if let Ok(s) = self.with_op(op, pos).consume() {
                        s.lemma_spell_p();
                    }
                }
            },
            TokenKind::End => {},
        }
    }

    /// A leaf that goes on the expression stack for the lookahead, which is
    /// then taken from the input, is spelled behind what the scope holds.
    proof fn lemma_spell_leaf(self, typ: TreeType)
        requires
            self.stacks_ok(),
            self.input_ok(),
            self.surplus() == 0,
            self.tidy(),
            self.next.typ !is End,
            (Tree { typ, pos: self.next.pos }).spell() == seq![
                mark(self.next.typ, self.next.pos),
            ],
            (Tree { typ, pos: self.next.pos }).well_formed(self.lexer.end_pos()),
        ensures
            self.with_exp(typ, self.next.pos).consume() matches Ok(s) ==> {
                &&& s.tidy()
                &&& s.outer_exps() == self.outer_exps()
                &&& s.spelled() + s.upcoming() == self.spelled() + self.upcoming()
            },
    {
        let pos = self.next.pos;
        let leaf = self.with_exp(typ, pos);
        self.lemma_spell_with_exp(typ, pos);
        self.lemma_with_exp(typ, pos);
        leaf.lemma_consume();
        leaf.lemma_spell_consume();
        if let Ok(s) = leaf.consume() {
            assert(s.spelled() == leaf.spelled());
            assert(s.outer_exps() == leaf.outer_exps());
            assert(leaf.upcoming() == self.upcoming());
            lemma_concat3(self.spelled(), seq![mark(self.next.typ, pos)], s.upcoming());
        }
    }

    /// A function call is spelled by its name, which is taken already, and
    /// by its argument between the two parentheses.
    #[verifier::rlimit(30)]
    proof fn lemma_spell_call(self, name: Seq<char>, pos: u32)
        requires
            self.stacks_ok(),
            self.input_ok(),
            self.surplus() == 0,
            self.tidy(),
        ensures
            self.parse_parens(pos) matches Ok(r) ==> {
                &&& r.0.with_exp(TreeType::Func(name, Box::new(r.1)), pos).tidy()
                &&& r.0.with_exp(TreeType::Func(name, Box::new(r.1)), pos).outer_exps()
                    == self.outer_exps()
                &&& agrees(
                    r.0.with_exp(TreeType::Func(name, Box::new(r.1)), pos).spelled()
                        + r.0.upcoming(),
                    self.spelled() + (seq![mark(TokenKind::Ident(name), pos)] + self.upcoming()),
                )
            },
        decreases self.weight(), 1nat,
    {
        self.lemma_parse_parens(pos);
        self.lemma_spell_parens(pos);
        if let Ok(r) = self.parse_parens(pos) {
            let typ = TreeType::Func(name, Box::new(r.1));
            let word = mark(TokenKind::Ident(name), pos);
            assert(r.0.spelled() == self.spelled());
            assert(r.0.outer_exps() == self.outer_exps());
            r.0.lemma_spell_with_exp(typ, pos);
            lemma_agrees_call(word, self.next.pos, r.1.spell(), r.0.upcoming(), self.upcoming());
            lemma_agrees_behind(
                self.spelled(),
                (Tree { typ, pos }).spell() + r.0.upcoming(),
                seq![word] + self.upcoming(),
            );
            lemma_concat3(self.spelled(), (Tree { typ, pos }).spell(), r.0.upcoming());
        }
    }

    /// An expression in parentheses is spelled as it is taken in.
    proof fn lemma_spell_group(self)
        requires
            self.stacks_ok(),
            self.input_ok(),
            self.surplus() == 0,
            self.tidy(),
        ensures
            self.parse_parens(self.next.pos) matches Ok(r) ==> {
                &&& r.0.with_exp(TreeType::Parens(Box::new(r.1)), self.next.pos).tidy()
                &&& r.0.with_exp(TreeType::Parens(Box::new(r.1)), self.next.pos).outer_exps()
                    == self.outer_exps()
                &&& agrees(
                    r.0.with_exp(TreeType::Parens(Box::new(r.1)), self.next.pos).spelled()
                        + r.0.upcoming(),
                    self.spelled() + self.upcoming(),
                )
            },
        decreases self.weight(), 1nat,
    {
        let pos = self.next.pos;
        self.lemma_parse_parens(pos);
        self.lemma_spell_parens(pos);
        if let Ok(r) = self.parse_parens(pos) {
            let typ = TreeType::Parens(Box::new(r.1));
            assert(r.0.spelled() == self.spelled());
            assert(r.0.outer_exps() == self.outer_exps());
            r.0.lemma_spell_with_exp(typ, pos);
            lemma_agrees_behind(
                self.spelled(),
                (Tree { typ, pos }).spell() + r.0.upcoming(),
                self.upcoming(),
            );
            lemma_concat3(self.spelled(), (Tree { typ, pos }).spell(), r.0.upcoming());
        }
    }

    /// A prefix operator that goes on the operator stack and is taken from
    /// the input is spelled behind what the scope holds.
    proof fn lemma_spell_prefix(self, op: Op)
        requires
            self.stacks_ok(),
            self.input_ok(),
            self.surplus() == 0,
            self.tidy(),
            self.next.typ == TokenKind::OpSingle(op.ch),
            lookup(op.ch, OpType::Prefix) == Some(op),
        ensures
            self.with_op(op, self.next.pos).consume() matches Ok(s) ==> {
                &&& s.stacks_ok()
                &&& s.input_ok()
                &&& s.surplus() == 0
                &&& s.tidy()
                &&& s.weight() < self.weight()
                &&& s.outer_exps() == self.outer_exps()
                &&& s.spelled() + s.upcoming() == self.spelled() + self.upcoming()
            },
    {
        let pos = self.next.pos;
        lemma_lookup(op.ch, OpType::Prefix);
        self.lemma_with_op(op, pos);
        self.lemma_spell_with_op(op, pos);
        let pushed = self.with_op(op, pos);
        assert(pushed.tidy()) by {
            assert forall|i: int| 0 <= i < pushed.ops.len() implies (#[trigger] pushed.ops[i]).0.typ
                != OpType::Postfix by {
                if i < self.ops.len() {
                    assert(pushed.ops[i] == self.ops[i]);
                }
            }
        }
        pushed.lemma_consume();
        pushed.lemma_spell_consume();
        if let Ok(s) = pushed.consume() {
            assert(s.spelled() == pushed.spelled());
            assert(s.outer_exps() == pushed.outer_exps());
            assert(pushed.upcoming() == self.upcoming());
            lemma_concat3(self.spelled(), seq![mark_op((op, pos))], s.upcoming());
        }
    }

    /// An expression in parentheses is spelled by its subtree between
    /// the two parentheses, and leaves the two stacks as they were.
    pub proof fn lemma_spell_parens(self, pos: u32)
        requires
            self.stacks_ok(),
            self.input_ok(),
            self.surplus() == 0,
            self.tidy(),
        ensures
            self.parse_parens(pos) matches Ok(r) ==> {
                &&& r.0.tidy()
                &&& r.0.ops == self.ops
                &&& r.0.exps == self.exps
                &&& agrees(
                    seq![mark(TokenKind::OpSingle('('), self.next.pos)] + r.1.spell() + seq![
                        unplaced(TokenKind::OpSingle(')')),
                    ] + r.0.upcoming(),
                    self.upcoming(),
                )
            },
        decreases self.weight(), 0nat,
    {
        if self.next.typ == TokenKind::OpSingle('(') {
            self.lemma_consume();
            self.lemma_spell_consume();
            if let Ok(s) = self.consume() {
                let opened = s.with_op(sentinel(), pos);
                s.lemma_open_scope(pos);
                s.lemma_spell_open_scope(pos);
                opened.lemma_parse_e();
                opened.lemma_spell_e();
                if let Ok(t) = opened.parse_e() {
                    if t.next.typ == TokenKind::OpSingle(')') {
                        t.lemma_consume();
                        t.lemma_spell_consume();
                        if let Ok(u) = t.consume() {
                            let tree = u.exps.last();
                            assert(t.frozen() =~= t.ops);
                            assert(u.exps.drop_last() =~= s.exps);
                            assert(u.ops.drop_last() =~= s.ops);
                            assert(opened.upcoming() == s.upcoming());
                            assert(opened.spelled() + opened.upcoming() =~= s.upcoming());
                            lemma_agrees_group(
                                mark(TokenKind::OpSingle('('), self.next.pos),
                                tree.spell(),
                                t.next.pos,
                                u.upcoming(),
                                s.upcoming(),
                            );
                        }
                    }
                }
            }
        }
    }
}

/// The tree spells the text. Where a text is accepted, the tokens that the tree stands for, read from left to right, agree
/// with the tokens of the text: they are as many, of the same types in the
/// same order, and every node of the tree has the position of the token that
/// defines it.
pub proof fn lemma_tree_spells_text(text: Seq<char>)
    requires
        text.len() <= u32::MAX,
    ensures
        parse_text(text) matches Ok(tree) ==> agrees(
            tree.spell(),
            marks(LexerState::start(text).items().0),
        ),
{
    let start = LexerState::start(text);
    lemma_next_token(start);
    if let Ok(s) = initial(text) {
        assert(s.ops.take(1) =~= s.ops);
        reveal_with_fuel(binary_count, 2);
        assert(s.spelled() =~= Seq::empty());
        assert(marks(start.items().0) =~= s.upcoming());
        s.lemma_parse_e();
        s.lemma_spell_e();
        if let Ok(t) = s.parse_e() {
            if t.next.typ is End {
                assert(t.spelled() + t.upcoming() =~= t.spelled());
                assert(s.spelled() + s.upcoming() =~= s.upcoming());
                t.lemma_consume();
                let done = t.consume();
                if let Ok(u) = done {
                    assert(u.exps.last() == t.exps.last());
                }
            }
        }
    }
}

} // verus!

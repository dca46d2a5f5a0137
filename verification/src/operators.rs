//! The operators that the parser knows, with their precedence and
//! associativity.

use vstd::prelude::*;

verus! {

/// How an operator stands to its operands. `Sentinel` is the class of the
/// marker that lies at the bottom of the operator stack and at the start of
/// each parenthesis scope.
#[derive(Copy, Clone, Debug, PartialEq, Eq, Structural)]
pub enum OpType {
    Sentinel,
    Binary,
    Prefix,
    Postfix,
}

/// To which side a chain of operators of equal precedence groups.
#[derive(Copy, Clone, Debug, PartialEq, Eq, Structural)]
pub enum Assoc {
    Left,
    Right,
}

/// An operator: its character, its class, its precedence and its associativity.
#[derive(Copy, Clone, Debug, PartialEq, Eq, Structural)]
pub struct Op {
    pub ch: char,
    pub typ: OpType,
    pub prec: u32,
    pub assoc: Assoc,
}

/// The marker of a scope. It is no operator of the table and binds weaker than
/// all of them.
pub open spec fn sentinel() -> Op {
    Op { ch: '\0', typ: OpType::Sentinel, prec: 0, assoc: Assoc::Left }
}

/// The table of operators.
pub open spec fn operators() -> Seq<Op> {
    seq![
        Op { ch: '+', typ: OpType::Binary, prec: 1, assoc: Assoc::Left },
        Op { ch: '-', typ: OpType::Binary, prec: 1, assoc: Assoc::Left },
        Op { ch: '*', typ: OpType::Binary, prec: 2, assoc: Assoc::Left },
        Op { ch: '/', typ: OpType::Binary, prec: 2, assoc: Assoc::Left },
        Op { ch: '-', typ: OpType::Prefix, prec: 3, assoc: Assoc::Left },
        Op { ch: '!', typ: OpType::Postfix, prec: 4, assoc: Assoc::Left },
        Op { ch: '^', typ: OpType::Binary, prec: 5, assoc: Assoc::Right },
    ]
}

/// The first operator of `table` with the character `ch` and the class `typ`.
pub open spec fn first_match(table: Seq<Op>, ch: char, typ: OpType) -> Option<Op>
    decreases table.len(),
{
    if table.len() == 0 {
        None
    } else if table[0].ch == ch && table[0].typ == typ {
        Some(table[0])
    } else {
        first_match(table.skip(1), ch, typ)
    }
}

/// The operator of the table with the character `ch` and the class `typ`.
pub open spec fn lookup(ch: char, typ: OpType) -> Option<Op> {
    first_match(operators(), ch, typ)
}

/// Whether `op1`, on top of the stack, is applied before `op2` is pushed: it
/// has the greater precedence, or the same and groups to the left.
pub open spec fn binds_tighter(op1: Op, op2: Op) -> bool {
    op1.prec > op2.prec || (op1.prec == op2.prec && op1.assoc == Assoc::Left)
}

/// An operator that the table holds for a class is of that class, has the
/// character asked for, and binds tighter than a marker.
pub proof fn lemma_lookup(ch: char, typ: OpType)
    ensures
        lookup(ch, typ) matches Some(op) ==> op.ch == ch && op.typ == typ && op.prec >= 1
            && typ != OpType::Sentinel,
{
    let t = operators();
    assert(t.skip(1).skip(1) =~= t.skip(2));
    assert(t.skip(2).skip(1) =~= t.skip(3));
    assert(t.skip(3).skip(1) =~= t.skip(4));
    assert(t.skip(4).skip(1) =~= t.skip(5));
    assert(t.skip(5).skip(1) =~= t.skip(6));
    assert(t.skip(6).skip(1) =~= t.skip(7));
    reveal_with_fuel(first_match, 8);
}

/// The marker of a scope, as a value.
pub fn make_sentinel() -> (op: Op)
    ensures
        op == sentinel(),
{
    Op { ch: '\0', typ: OpType::Sentinel, prec: 0, assoc: Assoc::Left }
}

/// Whether the entry of the operator stack, if there is one, is a marker of a scope.
pub fn is_sentinel(op: Option<&(Op, u32)>) -> (b: bool)
    ensures
        b == (op matches Some(entry) && entry.0.typ == OpType::Sentinel),
{
    if let Some(entry) = op {
        entry.0.typ == OpType::Sentinel
    } else {
        false
    }
}

/// Looks up the operator with the character `op_char` and the class `typ`.
pub fn get_op(op_char: char, typ: OpType) -> (found: Option<Op>)
    ensures
        found == lookup(op_char, typ),
{
    let table: [Op; 7] = [
        Op { ch: '+', typ: OpType::Binary, prec: 1, assoc: Assoc::Left },
        Op { ch: '-', typ: OpType::Binary, prec: 1, assoc: Assoc::Left },
        Op { ch: '*', typ: OpType::Binary, prec: 2, assoc: Assoc::Left },
        Op { ch: '/', typ: OpType::Binary, prec: 2, assoc: Assoc::Left },
        Op { ch: '-', typ: OpType::Prefix, prec: 3, assoc: Assoc::Left },
        Op { ch: '!', typ: OpType::Postfix, prec: 4, assoc: Assoc::Left },
        Op { ch: '^', typ: OpType::Binary, prec: 5, assoc: Assoc::Right },
    ];
    assert(table@ =~= operators());
    assert(operators().skip(0) =~= operators());
    let mut i: usize = 0;
    while i < 7
        invariant
            i <= 7,
            table@ == operators(),
            lookup(op_char, typ) == first_match(operators().skip(i as int), op_char, typ),
        decreases 7 - i,
    {
        let op: Op = table[i];
        if op.ch == op_char && op.typ == typ {
            return Some(op);
        }
        proof {
            assert(operators().skip(i as int).skip(1) =~= operators().skip(i + 1));
        }
        i += 1;
    }
    None
}

/// Whether `op1` is applied before `op2` is pushed.
pub fn has_greater_prec(op1: &Op, op2: &Op) -> (b: bool)
    ensures
        b == binds_tighter(*op1, *op2),
{
    op1.prec > op2.prec || (op1.prec == op2.prec && op1.assoc == Assoc::Left)
}

} // verus!

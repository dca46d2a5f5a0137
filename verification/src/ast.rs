//! The syntax tree, and its two renderings as text.

use crate::operators::{lookup, OpType};
use crate::text::{decimal, is_decimal_literal, is_identifier, push_decimal};
use vstd::prelude::*;
use vstd::string::*;

verus! {

/// What a node of the syntax tree is.
#[derive(Debug)]
pub enum AstType {
    /// A numeric literal, as it is written in the source.
    Number(String),
    Ident(String),
    Func(String, Box<AstNode>),
    Binary(char, Box<AstNode>, Box<AstNode>),
    Prefix(char, Box<AstNode>),
    Postfix(char, Box<AstNode>),
    Parens(Box<AstNode>),
}

/// A node of the syntax tree, with the position of the token that defines it.
#[derive(Debug)]
pub struct AstNode {
    pub typ: AstType,
    pub pos: u32,
}

/// An `AstType` with its texts as sequences of characters.
pub enum TreeType {
    Number(Seq<char>),
    Ident(Seq<char>),
    Func(Seq<char>, Box<Tree>),
    Binary(char, Box<Tree>, Box<Tree>),
    Prefix(char, Box<Tree>),
    Postfix(char, Box<Tree>),
    Parens(Box<Tree>),
}

/// An `AstNode` with its texts as sequences of characters.
pub struct Tree {
    pub typ: TreeType,
    pub pos: u32,
}

impl AstType {
    /// This value with its texts as sequences of characters.
    pub open spec fn tree_type(&self) -> TreeType
        decreases self,
    {
        match self {
            AstType::Number(lit) => TreeType::Number(lit@),
            AstType::Ident(name) => TreeType::Ident(name@),
            AstType::Func(name, arg) => TreeType::Func(name@, Box::new(arg.tree())),
            AstType::Binary(ch, left, right) => TreeType::Binary(
                *ch,
                Box::new(left.tree()),
                Box::new(right.tree()),
            ),
            AstType::Prefix(ch, arg) => TreeType::Prefix(*ch, Box::new(arg.tree())),
            AstType::Postfix(ch, arg) => TreeType::Postfix(*ch, Box::new(arg.tree())),
            AstType::Parens(arg) => TreeType::Parens(Box::new(arg.tree())),
        }
    }
}

impl AstNode {
    /// This node with its texts as sequences of characters.
    pub open spec fn tree(&self) -> Tree
        decreases self,
    {
        Tree { typ: self.typ.tree_type(), pos: self.pos }
    }
}

impl AstType {
    /// A copy of this value and of all that it owns.
    pub fn duplicate(&self) -> (copy: AstType)
        ensures
            copy@ == self@,
        decreases self,
    {
        match self {
            AstType::Number(lit) => AstType::Number(lit.clone()),
            AstType::Ident(name) => AstType::Ident(name.clone()),
            AstType::Func(name, arg) => AstType::Func(name.clone(), Box::new(arg.duplicate())),
            AstType::Binary(ch, left, right) => AstType::Binary(
                *ch,
                Box::new(left.duplicate()),
                Box::new(right.duplicate()),
            ),
            AstType::Prefix(ch, arg) => AstType::Prefix(*ch, Box::new(arg.duplicate())),
            AstType::Postfix(ch, arg) => AstType::Postfix(*ch, Box::new(arg.duplicate())),
            AstType::Parens(arg) => AstType::Parens(Box::new(arg.duplicate())),
        }
    }
}

impl AstNode {
    /// A copy of this node and of the whole tree below it.
    pub fn duplicate(&self) -> (copy: AstNode)
        ensures
            copy@ == self@,
        decreases self,
    {
        AstNode { typ: self.typ.duplicate(), pos: self.pos }
    }
}

impl Clone for AstType {
    fn clone(&self) -> (copy: AstType)
        ensures
            copy@ == self@,
    {
        self.duplicate()
    }
}

impl Clone for AstNode {
    fn clone(&self) -> (copy: AstNode)
        ensures
            copy@ == self@,
    {
        self.duplicate()
    }
}

impl View for AstType {
    type V = TreeType;

    open spec fn view(&self) -> TreeType {
        self.tree_type()
    }
}

impl View for AstNode {
    type V = Tree;

    open spec fn view(&self) -> Tree {
        self.tree()
    }
}

impl Tree {
    /// Whether the tree is one that the parser builds from a text of `end`
    /// characters: every position lies within the text, every numeric
    /// literal is a decimal literal, every name is an identifier, and every
    /// operator is in the table with the class of its node.
    pub open spec fn well_formed(self, end: int) -> bool
        decreases self,
    {
        &&& self.pos < end
        &&& match self.typ {
            TreeType::Number(lit) => is_decimal_literal(lit),
            TreeType::Ident(name) => is_identifier(name),
            TreeType::Func(name, arg) => is_identifier(name) && arg.well_formed(end),
            TreeType::Binary(ch, left, right) => lookup(ch, OpType::Binary) is Some
                && left.well_formed(end) && right.well_formed(end),
            TreeType::Prefix(ch, arg) => lookup(ch, OpType::Prefix) is Some && arg.well_formed(end),
            TreeType::Postfix(ch, arg) => lookup(ch, OpType::Postfix) is Some && arg.well_formed(
                end,
            ),
            TreeType::Parens(arg) => arg.well_formed(end),
        }
    }

    /// The expression as it is written in a line.
    pub open spec fn ascii_math(self) -> Seq<char>
        decreases self,
    {
        match self.typ {
            TreeType::Number(lit) => lit,
            TreeType::Ident(name) => name,
            TreeType::Func(name, arg) => name + "("@ + arg.ascii_math() + ")"@,
            TreeType::Binary(ch, left, right) => left.ascii_math().push(ch) + right.ascii_math(),
            TreeType::Prefix(ch, arg) => seq![ch] + arg.ascii_math(),
            TreeType::Postfix(ch, arg) => arg.ascii_math().push(ch),
            TreeType::Parens(arg) => "("@ + arg.ascii_math() + ")"@,
        }
    }

    /// The start of a line of the outline: the position, at least three
    /// characters wide and flush right, a colon, the indentation and a space.
    pub open spec fn margin(self, indent: Seq<char>) -> Seq<char> {
        let digits = decimal(self.pos as nat);
        let pad = if digits.len() == 1 {
            "  "@
        } else if digits.len() == 2 {
            " "@
        } else {
            ""@
        };
        pad + digits + ":"@ + indent + " "@
    }

    /// The tree as an outline: a line for each node, with its position, and
    /// the lines of its operands below it, indented by two more spaces.
    pub open spec fn outline(self, indent: Seq<char>) -> Seq<char>
        decreases self,
    {
        let deeper = indent + "  "@;
        self.margin(indent) + match self.typ {
            TreeType::Number(lit) => lit + "\n"@,
            TreeType::Ident(name) => name + "\n"@,
            TreeType::Func(name, arg) => name + "()\n"@ + arg.outline(deeper),
            TreeType::Binary(ch, left, right) => seq![ch] + "\n"@ + left.outline(deeper)
                + right.outline(deeper),
            TreeType::Prefix(ch, arg) => seq![ch] + " (prefix)\n"@ + arg.outline(deeper),
            TreeType::Postfix(ch, arg) => seq![ch] + " (postfix)\n"@ + arg.outline(deeper),
            TreeType::Parens(arg) => "()\n"@ + arg.outline(deeper),
        }
    }
}

impl AstNode {
    pub fn new(typ: AstType, pos: u32) -> (node: AstNode)
        ensures
            node@ == (Tree { typ: typ@, pos }),
            node.typ == typ,
            node.pos == pos,
    {
        AstNode { typ, pos }
    }

    /// This tree, to be written in a line.
    pub fn as_ascii_math(&self) -> (fmt: AsciiMathFmt<'_>)
        ensures
            fmt.0 == self,
    {
        AsciiMathFmt(self)
    }

    /// This tree, to be written as an outline.
    pub fn as_tree(&self) -> (fmt: TreeFmt<'_>)
        ensures
            fmt.0 == self,
    {
        TreeFmt(self)
    }
}

/// AsciiMath output: a tree that is written in a line.
#[derive(Copy, Clone)]
pub struct AsciiMathFmt<'a>(pub &'a AstNode);

impl<'a> AsciiMathFmt<'a> {
    /// Appends the expression to `out`.
    pub fn fmt(&self, out: &mut String)
        ensures
            final(out)@ == old(out)@ + self.0@.ascii_math(),
        decreases self.0,
    {
        let ghost before = out@;
        match &self.0.typ {
            AstType::Number(lit) => {
                out.append(lit.as_str());
            },
            AstType::Ident(name) => {
                out.append(name.as_str());
            },
            AstType::Func(name, arg) => {
                out.append(name.as_str());
                out.append("(");
                AsciiMathFmt(&**arg).fmt(out);
                out.append(")");
            },
            AstType::Binary(ch, left, right) => {
                AsciiMathFmt(&**left).fmt(out);
                out.push(*ch);
                AsciiMathFmt(&**right).fmt(out);
            },
            AstType::Prefix(ch, arg) => {
                out.push(*ch);
                AsciiMathFmt(&**arg).fmt(out);
            },
            AstType::Postfix(ch, arg) => {
                AsciiMathFmt(&**arg).fmt(out);
                out.push(*ch);
            },
            AstType::Parens(arg) => {
                out.append("(");
                AsciiMathFmt(&**arg).fmt(out);
                out.append(")");
            },
        }
        assert(out@ =~= before + self.0@.ascii_math());
    }

    /// The expression as a text of one line.
    pub fn to_text(&self) -> (text: String)
        ensures
            text@ == self.0@.ascii_math(),
    {
        let mut out = String::new();
        self.fmt(&mut out);
        assert(out@ =~= self.0@.ascii_math());
        out
    }
}

/// Tree output: a tree that is written as an outline.
#[derive(Copy, Clone)]
pub struct TreeFmt<'a>(pub &'a AstNode);

impl<'a> TreeFmt<'a> {
    /// Appends the start of the line of this node to `out`.
    fn margin(&self, out: &mut String, indent: &str)
        ensures
            final(out)@ == old(out)@ + self.0@.margin(indent@),
    {
        let pos = self.0.pos;
        // Output the line position and the indent.
        if pos < 10 {
            out.append("  ");
        } else if pos < 100 {
            out.append(" ");
        } else {
            out.append("");
        }
        proof {
            lemma_decimal_len(pos as nat);
        }
        push_decimal(out, pos);
        out.append(":");
        out.append(indent);
        out.append(" ");
        assert(out@ =~= old(out)@ + self.0@.margin(indent@));
    }

    /// Appends the outline of the tree to `out`, each line behind `indent`.
    pub fn format(&self, out: &mut String, indent: &str)
        ensures
            final(out)@ == old(out)@ + self.0@.outline(indent@),
        decreases self.0,
    {
        let ghost before = out@;
        self.margin(out, indent);
        let ghost line = out@;
        let deeper = indent.to_owned().concat("  ");
        match &self.0.typ {
            AstType::Number(lit) => {
                out.append(lit.as_str());
                out.append("\n");
                assert(out@ =~= line + (lit@ + "\n"@));
            },
            AstType::Ident(name) => {
                out.append(name.as_str());
                out.append("\n");
                assert(out@ =~= line + (name@ + "\n"@));
            },
            AstType::Func(name, arg) => {
                out.append(name.as_str());
                out.append("()\n");
                TreeFmt(&**arg).format(out, deeper.as_str());
                assert(out@ =~= line + (name@ + "()\n"@ + arg@.outline(deeper@)));
            },
            AstType::Binary(ch, left, right) => {
                out.push(*ch);
                out.append("\n");
                TreeFmt(&**left).format(out, deeper.as_str());
                TreeFmt(&**right).format(out, deeper.as_str());
                assert(out@ =~= line + (seq![*ch] + "\n"@ + left@.outline(deeper@)
                    + right@.outline(deeper@)));
            },
            AstType::Prefix(ch, arg) => {
                out.push(*ch);
                out.append(" (prefix)\n");
                TreeFmt(&**arg).format(out, deeper.as_str());
                assert(out@ =~= line + (seq![*ch] + " (prefix)\n"@ + arg@.outline(deeper@)));
            },
            AstType::Postfix(ch, arg) => {
                out.push(*ch);
                out.append(" (postfix)\n");
                TreeFmt(&**arg).format(out, deeper.as_str());
                assert(out@ =~= line + (seq![*ch] + " (postfix)\n"@ + arg@.outline(deeper@)));
            },
            AstType::Parens(arg) => {
                out.append("()\n");
                TreeFmt(&**arg).format(out, deeper.as_str());
                assert(out@ =~= line + ("()\n"@ + arg@.outline(deeper@)));
            },
        }
        assert(out@ =~= before + self.0@.outline(indent@));
    }

    /// The outline of the tree as a text.
    pub fn to_text(&self) -> (text: String)
        ensures
            text@ == self.0@.outline(Seq::empty()),
    {
        let mut out = String::new();
        self.format(&mut out, "");
        proof {
            reveal_strlit("");
            assert(""@ =~= Seq::<char>::empty());
            assert(out@ =~= self.0@.outline(Seq::empty()));
        }
        out
    }
}

/// The decimal notation of a number below ten has one digit, that of a
/// number below a hundred two, and that of any other number more.
pub proof fn lemma_decimal_len(n: nat)
    ensures
        n < 10 ==> decimal(n).len() == 1,
        10 <= n < 100 ==> decimal(n).len() == 2,
        n >= 100 ==> decimal(n).len() >= 3,
    decreases n,
{
    if n >= 10 {
        lemma_decimal_len(n / 10);
    }
}

} // verus!

//! An arithmetic expression parser: a lexer and a shunting-yard parser that
//! turn text into a syntax tree which keeps operator precedence,
//! associativity and the source position of every node.
//!
//! [`shuntingyard::parse`] is the entry point. What it returns is defined in
//! [`grammar`], over the tokens that [`lexer`] defines. What holds of every
//! tree is proved in [`grammar_proofs`], [`spelling`] and [`shape`].

pub mod ast;
pub mod error;
pub mod grammar;
pub mod grammar_proofs;
pub mod lexer;
pub mod operators;
pub mod pattern;
pub mod shape;
pub mod shuntingyard;
pub mod spelling;
pub mod text;

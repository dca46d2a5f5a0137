use shunting_yard::ast::AstType::{Binary, Func, Ident, Number, Parens, Postfix, Prefix};
use shunting_yard::ast::{AstNode, AstType};
use shunting_yard::error::ParseError;
use shunting_yard::lexer::{Lexer, TokenType};
use shunting_yard::shuntingyard::parse;

fn node(typ: AstType, pos: u32) -> Box<AstNode> {
    Box::new(AstNode::new(typ, pos))
}

fn num(text: &str, pos: u32) -> Box<AstNode> {
    node(Number(text.to_string()), pos)
}

fn ident(text: &str, pos: u32) -> Box<AstNode> {
    node(Ident(text.to_string()), pos)
}

fn assert_same(found: &AstNode, expected: &AstNode) {
    assert_eq!(format!("{:?}", found), format!("{:?}", expected));
}

fn parse_error(text: &str) -> String {
    match parse(text) {
        Err(ParseError::Parse(msg)) => msg,
        other => panic!("{:?}", other),
    }
}

#[test]
fn test() {
    let text = "(3*x+4)!!- 5*2^x!^2+log(zy^2^3)--5";
    println!(".123456789.123456789.123456789.123456789");
    println!("{}", text);
    let ast_node = parse(text).unwrap();
    println!("{}", ast_node.as_ascii_math().to_text());
    println!("{}", ast_node.as_tree().to_text());
    assert_eq!(ast_node.as_ascii_math().to_text(), "(3*x+4)!!-5*2^x!^2+log(zy^2^3)--5");
}

#[test]
fn product_binds_tighter_than_sum() {
    let tree = parse("3+4*5").unwrap();
    let expected = node(
        Binary('+', num("3", 0), node(Binary('*', num("4", 2), num("5", 4)), 3)),
        1,
    );
    assert_same(&tree, &expected);
}

#[test]
fn sum_groups_to_the_left() {
    let tree = parse("1-2+3").unwrap();
    let expected = node(
        Binary('+', node(Binary('-', num("1", 0), num("2", 2)), 1), num("3", 4)),
        3,
    );
    assert_same(&tree, &expected);
}

#[test]
fn power_groups_to_the_right() {
    let tree = parse("2^3^4").unwrap();
    let expected = node(
        Binary('^', num("2", 0), node(Binary('^', num("3", 2), num("4", 4)), 3)),
        1,
    );
    assert_same(&tree, &expected);
}

#[test]
fn parentheses_are_a_node() {
    let tree = parse("(3*x+4)").unwrap();
    let expected = node(
        Parens(node(
            Binary('+', node(Binary('*', num("3", 1), ident("x", 3)), 2), num("4", 5)),
            4,
        )),
        0,
    );
    assert_same(&tree, &expected);
}

#[test]
fn identifier_before_parentheses_is_a_call() {
    let tree = parse("log(x+1)").unwrap();
    let expected = node(
        Func("log".to_string(), node(Binary('+', ident("x", 4), num("1", 6)), 5)),
        0,
    );
    assert_same(&tree, &expected);
}

#[test]
fn call_takes_the_position_of_its_name() {
    let tree = parse(" f (x)").unwrap();
    let expected = node(Func("f".to_string(), ident("x", 4)), 1);
    assert_same(&tree, &expected);
}

#[test]
fn postfix_and_prefix_operators() {
    assert_same(&parse("5!").unwrap(), &node(Postfix('!', num("5", 0)), 1));
    assert_same(&parse("-5").unwrap(), &node(Prefix('-', num("5", 1)), 0));
}

#[test]
fn postfix_binds_tighter_than_prefix() {
    let tree = parse("-5!").unwrap();
    let expected = node(Prefix('-', node(Postfix('!', num("5", 1)), 2)), 0);
    assert_same(&tree, &expected);
}

#[test]
fn prefix_binds_tighter_than_product() {
    let tree = parse("-2*3").unwrap();
    let expected = node(
        Binary('*', node(Prefix('-', num("2", 1)), 0), num("3", 3)),
        2,
    );
    assert_same(&tree, &expected);
}

#[test]
fn power_binds_tighter_than_postfix() {
    let tree = parse("2^x!").unwrap();
    let expected = node(
        Postfix('!', node(Binary('^', num("2", 0), ident("x", 2)), 1)),
        3,
    );
    assert_same(&tree, &expected);
}

#[test]
fn prefix_after_binary_operator() {
    let tree = parse("a--5").unwrap();
    let expected = node(
        Binary('-', ident("a", 0), node(Prefix('-', num("5", 3)), 2)),
        1,
    );
    assert_same(&tree, &expected);
}

#[test]
fn single_leaves() {
    assert_same(&parse("7.5").unwrap(), &num("7.5", 0));
    assert_same(&parse("  abc ").unwrap(), &ident("abc", 2));
}

#[test]
fn nested_parentheses() {
    let tree = parse("((a))").unwrap();
    let expected = node(Parens(node(Parens(ident("a", 2)), 1)), 0);
    assert_same(&tree, &expected);
}

#[test]
fn same_text_gives_the_same_tree() {
    let text = "(3*x+4)!!- 5*2^x!^2+log(zy^2^3)--5";
    let first = parse(text).unwrap();
    let second = parse(text).unwrap();
    assert_same(&first, &second);
    assert_eq!(first.as_tree().to_text(), second.as_tree().to_text());
}

#[test]
fn missing_operand_in_parentheses() {
    assert_eq!(parse_error("(3+"), "Expected operand, but got End at position 3");
}

#[test]
fn missing_closing_parenthesis() {
    assert_eq!(
        parse_error("(3"),
        "Expected OpSingle(')') of expression, but got End at position 2"
    );
    assert_eq!(
        parse_error("log(3+4"),
        "Expected OpSingle(')') of expression, but got End at position 7"
    );
    assert_eq!(
        parse_error("(3 x)"),
        "Expected OpSingle(')') of expression, but got Ident(\"x\") at position 3"
    );
}

#[test]
fn trailing_tokens() {
    assert_eq!(
        parse_error("3 4"),
        "Expected End of expression, but got Number(4) at position 2"
    );
    assert_eq!(
        parse_error("3)"),
        "Expected End of expression, but got OpSingle(')') at position 1"
    );
    assert_eq!(
        parse_error("a=1"),
        "Expected End of expression, but got OpSingle('=') at position 1"
    );
}

#[test]
fn operand_expected() {
    assert_eq!(parse_error(""), "Expected operand, but got End at position 0");
    assert_eq!(
        parse_error("*3"),
        "Expected operand, but got OpSingle('*') at position 0"
    );
    assert_eq!(
        parse_error("3+)"),
        "Expected operand, but got OpSingle(')') at position 2"
    );
    assert_eq!(
        parse_error("()"),
        "Expected operand, but got OpSingle(')') at position 1"
    );
}

#[test]
fn prefix_operators_in_a_chain() {
    let tree = parse("--5").unwrap();
    let expected = node(Prefix('-', node(Prefix('-', num("5", 2)), 1)), 0);
    assert_same(&tree, &expected);
    let tree = parse("1+--2").unwrap();
    let expected = node(
        Binary(
            '+',
            num("1", 0),
            node(Prefix('-', node(Prefix('-', num("2", 4)), 3)), 2),
        ),
        1,
    );
    assert_same(&tree, &expected);
}

#[test]
fn prefix_operator_behind_a_tighter_operator() {
    let tree = parse("2^-3").unwrap();
    let expected = node(
        Binary('^', num("2", 0), node(Prefix('-', num("3", 3)), 2)),
        1,
    );
    assert_same(&tree, &expected);
    let tree = parse("a+(2^-3)").unwrap();
    let expected = node(
        Binary(
            '+',
            ident("a", 0),
            node(
                Parens(node(
                    Binary('^', num("2", 3), node(Prefix('-', num("3", 6)), 5)),
                    4,
                )),
                2,
            ),
        ),
        1,
    );
    assert_same(&tree, &expected);
    let tree = parse("a+f(2^-3)").unwrap();
    let expected = node(
        Binary(
            '+',
            ident("a", 0),
            node(
                Func(
                    "f".to_string(),
                    node(
                        Binary('^', num("2", 4), node(Prefix('-', num("3", 7)), 6)),
                        5,
                    ),
                ),
                2,
            ),
        ),
        1,
    );
    assert_same(&tree, &expected);
}

#[test]
fn operators_behind_a_prefix_operator() {
    let tree = parse("2^-3*4").unwrap();
    let expected = node(
        Binary(
            '*',
            node(
                Binary('^', num("2", 0), node(Prefix('-', num("3", 3)), 2)),
                1,
            ),
            num("4", 5),
        ),
        4,
    );
    assert_same(&tree, &expected);
    let tree = parse("-2^3").unwrap();
    let expected = node(
        Prefix('-', node(Binary('^', num("2", 1), num("3", 3)), 2)),
        0,
    );
    assert_same(&tree, &expected);
}

#[test]
fn lexer_errors_come_through() {
    match parse("3 & 4") {
        Err(ParseError::Lex(msg)) => assert_eq!(msg, "Unexpected '&' at position 2"),
        other => panic!("{:?}", other),
    }
    match parse("#") {
        Err(ParseError::Lex(msg)) => assert_eq!(msg, "Unexpected '#' at position 0"),
        other => panic!("{:?}", other),
    }
    match parse("1+\u{663}") {
        Err(ParseError::Float(lit)) => assert_eq!(lit, "\u{663}"),
        other => panic!("{:?}", other),
    }
}

#[test]
fn first_error_wins() {
    assert_eq!(
        parse_error("3 4 &"),
        "Expected End of expression, but got Number(4) at position 2"
    );
}

#[test]
fn error_messages() {
    assert_eq!(ParseError::Lex("a".to_string()).message(), "a");
    assert_eq!(ParseError::Parse("b".to_string()).message(), "b");
    assert_eq!(ParseError::Float("c".to_string()).message(), "invalid float literal");
}

#[test]
fn outline_of_a_tree() {
    let tree = parse("3+4*5").unwrap();
    assert_eq!(
        tree.as_tree().to_text(),
        "  1: +\n  0:   3\n  3:   *\n  2:     4\n  4:     5\n"
    );
    let tree = parse("-log(x)!").unwrap();
    assert_eq!(
        tree.as_tree().to_text(),
        "  0: - (prefix)\n  7:   ! (postfix)\n  1:     log()\n  5:       x\n"
    );
    let tree = parse("         (a)").unwrap();
    assert_eq!(tree.as_tree().to_text(), "  9: ()\n 10:   a\n");
}

#[test]
fn line_of_a_tree() {
    assert_eq!(parse(" log ( x + 1 ) ").unwrap().as_ascii_math().to_text(), "log(x+1)");
    assert_eq!(parse("- 2 ^ 3 !").unwrap().as_ascii_math().to_text(), "-2^3!");
    let mut out = String::from("y=");
    parse("(1.50)").unwrap().as_ascii_math().fmt(&mut out);
    assert_eq!(out, "y=(1.50)");
}

#[test]
fn copy_of_a_tree() {
    let tree = parse("log(x+1)*-2").unwrap();
    assert_same(&tree.clone(), &tree);
    assert_same(&tree.duplicate(), &tree);
    let leaf = AstNode::new(Ident("x".to_string()), 3);
    assert_eq!(leaf.pos, 3);
    assert!(matches!(leaf.typ, Ident(_)));
}

fn spell(node: &AstNode, out: &mut Vec<(String, Option<u32>)>) {
    let here = Some(node.pos);
    match &node.typ {
        Number(lit) => out.push((format!("number {}", lit), here)),
        Ident(name) => out.push((format!("name {}", name), here)),
        Func(name, arg) => {
            out.push((format!("name {}", name), here));
            out.push(("(".to_string(), None));
            spell(arg, out);
            out.push((")".to_string(), None));
        }
        Binary(ch, left, right) => {
            spell(left, out);
            out.push((ch.to_string(), here));
            spell(right, out);
        }
        Prefix(ch, arg) => {
            out.push((ch.to_string(), here));
            spell(arg, out);
        }
        Postfix(ch, arg) => {
            spell(arg, out);
            out.push((ch.to_string(), here));
        }
        Parens(arg) => {
            out.push(("(".to_string(), here));
            spell(arg, out);
            out.push((")".to_string(), None));
        }
    }
}

#[test]
fn tree_spells_the_tokens_of_the_text() {
    for text in [
        "3+4*5",
        "2^3^4",
        "(3*x+4)!!- 5*2^x!^2+log(zy^2^3)--5",
        "-(-x)",
        "f(g(x))!",
        "a--5",
        "-a*-b",
        " ( ( 1 ) ) ",
        "--5",
        "2^-3",
        "1+2^-3",
        "a+(2^-3)",
        "a+f(2^--3!)*b",
        "1+--2",
    ] {
        let mut tokens: Vec<(String, u32)> = Vec::new();
        for item in Lexer::new(text).tokens() {
            let token = item.unwrap();
            let name = match token.typ {
                TokenType::Number(lit) => format!("number {}", lit),
                TokenType::Ident(name) => format!("name {}", name),
                TokenType::OpSingle(ch) => ch.to_string(),
                TokenType::End => unreachable!(),
            };
            tokens.push((name, token.pos));
        }
        let mut spelled: Vec<(String, Option<u32>)> = Vec::new();
        spell(&parse(text).unwrap(), &mut spelled);
        assert_eq!(spelled.len(), tokens.len(), "{}", text);
        for (mark, token) in spelled.iter().zip(tokens.iter()) {
            assert_eq!(mark.0, token.0, "{}", text);
            if let Some(pos) = mark.1 {
                assert_eq!(pos, token.1, "{}", text);
            }
        }
    }
}

#[test]
fn prefix_operator_leaves_the_operators_before_it() {
    assert_eq!(parse("1+2^-3").unwrap().as_ascii_math().to_text(), "1+2^-3");
    let tree = parse("1+2^-3").unwrap();
    let expected = node(
        Binary(
            '+',
            num("1", 0),
            node(
                Binary('^', num("2", 2), node(Prefix('-', num("3", 5)), 4)),
                3,
            ),
        ),
        1,
    );
    assert_same(&tree, &expected);
}

use shunting_yard::error::ParseError;
use shunting_yard::lexer::TokenType::{End, Ident, Number, OpSingle};
use shunting_yard::lexer::{take_match, Lexer, Token, TokenType};

#[test]
fn test_print_tokens() {
    let text = "log(3x!!+4)- 5x zy^2^3";
    let mut lexer = Lexer::new(text);

    let mut error = None;
    let mut vec: Vec<Token> = Vec::new();
    while let Some(res) = lexer.next() {
        vec.push(res.unwrap_or_else(|err| {
            error = Some(err);
            Token {
                typ: Ident("<ERROR>"),
                pos: 0,
            }
        }));
    }
    println!("---------------------");
    println!("{}", text);
    println!("----");
    for token in &vec {
        println!("{:?}", token);
    }
    if let Some(err) = error {
        println!("ERROR: {:?}", err);
    }
    println!("---------------------");
}

#[test]
fn test_lexer_iter_eq() {
    let text = "log(3x!!+4)- 5x zy^2^3";
    let mut lexer = Lexer::new(text);
    let mut lexer_clone = lexer.clone();
    let mut iter = lexer_clone.iter();

    let mut vec1: Vec<Token> = Vec::new();
    while let Some(res) = lexer.next() {
        vec1.push(res.unwrap_or_else(|_| Token {
            typ: Ident("<ERROR>"),
            pos: 0,
        }));
    }
    let mut vec2: Vec<Token> = Vec::new();
    while let Some(res) = iter.next() {
        vec2.push(res.unwrap_or_else(|_| Token {
            typ: Ident("<ERROR>"),
            pos: 0,
        }));
    }
    assert_eq!(vec1, vec2);
}

#[test]
fn tokens_and_positions() {
    let mut lexer = Lexer::new("log(3x!!+4)- 5x zy^2^3");
    let expected: Vec<(TokenType, u32)> = vec![
        (Ident("log"), 0),
        (OpSingle('('), 3),
        (Number("3"), 4),
        (Ident("x"), 5),
        (OpSingle('!'), 6),
        (OpSingle('!'), 7),
        (OpSingle('+'), 8),
        (Number("4"), 9),
        (OpSingle(')'), 10),
        (OpSingle('-'), 11),
        (Number("5"), 13),
        (Ident("x"), 14),
        (Ident("zy"), 16),
        (OpSingle('^'), 18),
        (Number("2"), 19),
        (OpSingle('^'), 20),
        (Number("3"), 21),
        (End, 22),
        (End, 22),
    ];
    for (typ, pos) in expected {
        let token = lexer.next_token().unwrap();
        assert_eq!(token.typ, typ);
        assert_eq!(token.pos, pos);
    }
}

#[test]
fn every_single_character_token() {
    let mut lexer = Lexer::new("+-*/^!=()");
    let mut pos = 0;
    for ch in "+-*/^!=()".chars() {
        let token = lexer.next_token().unwrap();
        assert_eq!(token.typ, OpSingle(ch));
        assert_eq!(token.pos, pos);
        pos += 1;
    }
    assert_eq!(lexer.next_token().unwrap().typ, End);
}

#[test]
fn numeric_literals_keep_their_text() {
    for text in ["0", "42", "3.", "3.25", "1e10", "2.5E3", "7.e2"] {
        let mut lexer = Lexer::new(text);
        let token = lexer.next_token().unwrap();
        assert_eq!(token.typ, Number(text));
        assert_eq!(token.pos, 0);
        let end = lexer.next_token().unwrap();
        assert_eq!(end.typ, End);
        assert_eq!(end.pos, text.len() as u32);
        assert!(text.parse::<f64>().is_ok());
    }
}

#[test]
fn literal_stops_where_the_pattern_stops() {
    let mut lexer = Lexer::new("12e+3");
    assert_eq!(lexer.next_token().unwrap().typ, Number("12"));
    assert_eq!(lexer.next_token().unwrap().typ, Ident("e"));
    assert_eq!(lexer.next_token().unwrap().typ, OpSingle('+'));
    assert_eq!(lexer.next_token().unwrap().typ, Number("3"));
    assert_eq!(lexer.next_token().unwrap().typ, End);
}

#[test]
fn sign_is_a_token_of_its_own() {
    let mut lexer = Lexer::new("-5");
    let minus = lexer.next_token().unwrap();
    assert_eq!(minus.typ, OpSingle('-'));
    assert_eq!(minus.pos, 0);
    let five = lexer.next_token().unwrap();
    assert_eq!(five.typ, Number("5"));
    assert_eq!(five.pos, 1);
}

#[test]
fn whitespace_counts_one_per_character() {
    let mut lexer = Lexer::new(" \t\u{a0}\u{2003}x \n");
    let token = lexer.next_token().unwrap();
    assert_eq!(token.typ, Ident("x"));
    assert_eq!(token.pos, 4);
    let end = lexer.next_token().unwrap();
    assert_eq!(end.typ, End);
    assert_eq!(end.pos, 7);
}

#[test]
fn end_is_repeated_at_the_end_of_the_text() {
    for text in ["", "   ", "a+1", "(3*x+4)!!- 5*2^x!^2+log(zy^2^3)--5", "\u{a0}7\u{a0}"] {
        let mut lexer = Lexer::new(text);
        loop {
            let token = lexer.next_token().unwrap();
            if token.typ == End {
                assert_eq!(token.pos as usize, text.chars().count());
                break;
            }
        }
        for _ in 0..3 {
            let token = lexer.next_token().unwrap();
            assert_eq!(token.typ, End);
            assert_eq!(token.pos as usize, text.chars().count());
        }
    }
}

#[test]
fn lex_error_is_sticky() {
    let mut lexer = Lexer::new("3 & 4");
    let three = lexer.next_token().unwrap();
    assert_eq!(three.typ, Number("3"));
    match lexer.next_token() {
        Err(ParseError::Lex(msg)) => assert_eq!(msg, "Unexpected '&' at position 2"),
        other => panic!("{:?}", other),
    }
    for _ in 0..3 {
        match lexer.next_token() {
            Err(ParseError::Lex(msg)) => {
                assert_eq!(msg, "Errored previously: Unexpected '&' at position 2")
            }
            other => panic!("{:?}", other),
        }
    }
}

#[test]
fn first_call_fails_on_a_leading_unknown_character() {
    let mut lexer = Lexer::new("&");
    assert!(matches!(lexer.next_token(), Err(ParseError::Lex(_))));
    assert!(matches!(lexer.next_token(), Err(ParseError::Lex(_))));
    assert!(lexer.next().is_none());
}

#[test]
fn unexpected_character_outside_ascii() {
    let mut lexer = Lexer::new("  \u{e9}");
    match lexer.next_token() {
        Err(ParseError::Lex(msg)) => assert_eq!(msg, "Unexpected '\u{e9}' at position 2"),
        other => panic!("{:?}", other),
    }
}

#[test]
fn literal_without_a_value_is_a_float_error() {
    let text = "\u{663}\u{664}";
    let conversion = text.parse::<f64>().unwrap_err();
    let mut lexer = Lexer::new(text);
    match lexer.next_token() {
        Err(err) => {
            assert_eq!(err.message(), conversion.to_string());
            assert!(matches!(err, ParseError::Float(lit) if lit == text));
        }
        other => panic!("{:?}", other),
    }
    match lexer.next_token() {
        Err(ParseError::Lex(msg)) => assert_eq!(msg, "Errored previously: invalid float literal"),
        other => panic!("{:?}", other),
    }
}

#[test]
fn sequence_stops_before_end() {
    let mut lexer = Lexer::new("a b");
    assert_eq!(lexer.next().unwrap().unwrap().typ, Ident("a"));
    assert_eq!(lexer.next().unwrap().unwrap().typ, Ident("b"));
    assert!(lexer.next().is_none());
    assert!(lexer.next().is_none());
}

#[test]
fn sequence_ends_with_the_error() {
    let mut lexer = Lexer::new("a ? b");
    assert_eq!(lexer.next().unwrap().unwrap().typ, Ident("a"));
    assert!(matches!(lexer.next(), Some(Err(ParseError::Lex(_)))));
    assert!(lexer.next().is_none());
    assert!(matches!(lexer.next_token(), Err(ParseError::Lex(_))));
}

#[test]
fn iterator_starts_where_the_lexer_stands() {
    let mut lexer = Lexer::new("a b c");
    assert_eq!(lexer.next_token().unwrap().typ, Ident("a"));
    let mut iter = lexer.iter();
    let b = iter.next().unwrap().unwrap();
    assert_eq!(b.typ, Ident("b"));
    assert_eq!(b.pos, 2);
    let c = iter.next().unwrap().unwrap();
    assert_eq!(c.typ, Ident("c"));
    assert_eq!(c.pos, 4);
    assert!(iter.next().is_none());
}

#[test]
fn tokens_compare_by_type_alone() {
    let a = Token { typ: Ident("x"), pos: 1 };
    let b = Token { typ: Ident("x"), pos: 7 };
    let c = Token { typ: Number("x"), pos: 1 };
    assert!(a == b);
    assert!(a != c);
    assert!(a == Ident("x"));
    assert!(Ident("x") == b);
    assert!(a != End);
    assert!(OpSingle('+') != OpSingle('-'));
    assert!(Ident("x").same(&Ident("x")));
    assert!(!Ident("x").same(&Ident("y")));
}

#[test]
fn match_is_taken_from_the_start_only() {
    assert_eq!(take_match("abc d", Some((0, 3))), Some(("abc", " d")));
    assert_eq!(take_match("abc d", Some((0, 0))), Some(("", "abc d")));
    assert_eq!(take_match("abc d", Some((0, 5))), Some(("abc d", "")));
    assert_eq!(take_match("abc d", Some((1, 3))), None);
    assert_eq!(take_match("abc d", Some((0, 6))), None);
    assert_eq!(take_match("abc d", None), None);
    assert_eq!(take_match("\u{e9}t\u{e9}", Some((0, 2))), Some(("\u{e9}", "t\u{e9}")));
    assert_eq!(take_match("\u{e9}t\u{e9}", Some((0, 1))), None);
}

#[test]
fn all_tokens_at_once() {
    let mut lexer = Lexer::new("a+1 ");
    let items = lexer.tokens();
    assert_eq!(items.len(), 3);
    assert_eq!(items[0].as_ref().unwrap().typ, Ident("a"));
    assert_eq!(items[1].as_ref().unwrap().typ, OpSingle('+'));
    assert_eq!(items[2].as_ref().unwrap().typ, Number("1"));
    assert!(lexer.tokens().is_empty());
    let end = lexer.next_token().unwrap();
    assert_eq!(end.typ, End);
    assert_eq!(end.pos, 4);
}

#[test]
fn all_tokens_up_to_the_error() {
    let mut lexer = Lexer::new("a $ b");
    let items = lexer.tokens();
    assert_eq!(items.len(), 2);
    assert_eq!(items[0].as_ref().unwrap().typ, Ident("a"));
    assert!(matches!(&items[1], Err(ParseError::Lex(msg)) if msg == "Unexpected '$' at position 2"));
    assert!(lexer.tokens().is_empty());
}

#[test]
fn sequence_is_no_longer_than_the_text() {
    for text in ["", "a", "a b c", "1+2*3", "((((", "x!y!z", "  12.5e3  "] {
        let mut lexer = Lexer::new(text);
        let items = lexer.tokens();
        assert!(items.len() <= text.chars().count() + 1);
        assert!(items.iter().all(|item| item.is_ok()));
    }
}

#[test]
fn whitespace_is_what_the_standard_library_says() {
    let listed = |c: char| {
        let u = c as u32;
        (0x09..=0x0D).contains(&u)
            || u == 0x20
            || u == 0x85
            || u == 0xA0
            || u == 0x1680
            || (0x2000..=0x200A).contains(&u)
            || u == 0x2028
            || u == 0x2029
            || u == 0x202F
            || u == 0x205F
            || u == 0x3000
    };
    let mut count = 0;
    for u in 0..=0x10FFFFu32 {
        if let Some(c) = char::from_u32(u) {
            assert_eq!(c.is_whitespace(), listed(c), "{:x}", u);
            if listed(c) {
                count += 1;
                let text = format!("{}x", c);
                let token = Lexer::new(&text).next_token().unwrap();
                assert_eq!(token.typ, Ident("x"));
                assert_eq!(token.pos, 1);
            }
        }
    }
    assert_eq!(count, 25);
    for c in ['\u{200b}', '\u{180e}', '\u{feff}', '\u{1f}'] {
        let text = format!("{}x", c);
        assert!(matches!(Lexer::new(&text).next_token(), Err(ParseError::Lex(_))));
    }
}

use shunting_yard::operators::{get_op, has_greater_prec, is_sentinel, make_sentinel, Assoc, Op, OpType};
use shunting_yard::text::{
    check_decimal_literal, check_identifier, push_decimal, same_text, split_at_boundary,
    split_first, utf8_width,
};

#[test]
fn operator_table() {
    let rows = [
        ('+', OpType::Binary, 1, Assoc::Left),
        ('-', OpType::Binary, 1, Assoc::Left),
        ('*', OpType::Binary, 2, Assoc::Left),
        ('/', OpType::Binary, 2, Assoc::Left),
        ('-', OpType::Prefix, 3, Assoc::Left),
        ('!', OpType::Postfix, 4, Assoc::Left),
        ('^', OpType::Binary, 5, Assoc::Right),
    ];
    for (ch, typ, prec, assoc) in rows {
        assert_eq!(get_op(ch, typ), Some(Op { ch, typ, prec, assoc }));
    }
}

#[test]
fn operators_not_in_the_table() {
    assert_eq!(get_op('+', OpType::Prefix), None);
    assert_eq!(get_op('!', OpType::Binary), None);
    assert_eq!(get_op('^', OpType::Postfix), None);
    assert_eq!(get_op('=', OpType::Binary), None);
    assert_eq!(get_op('(', OpType::Prefix), None);
    assert_eq!(get_op('\0', OpType::Sentinel), None);
    assert_eq!(get_op('+', OpType::Sentinel), None);
}

#[test]
fn sentinel_matches_itself_only() {
    let sentinel = make_sentinel();
    assert_eq!(sentinel.prec, 0);
    assert_eq!(sentinel.typ, OpType::Sentinel);
    assert!(is_sentinel(Some(&(sentinel, 4))));
    assert!(!is_sentinel(Some(&(get_op('+', OpType::Binary).unwrap(), 4))));
    assert!(!is_sentinel(None));
}

#[test]
fn precedence_and_associativity() {
    let plus = get_op('+', OpType::Binary).unwrap();
    let minus = get_op('-', OpType::Binary).unwrap();
    let times = get_op('*', OpType::Binary).unwrap();
    let power = get_op('^', OpType::Binary).unwrap();
    let sentinel = make_sentinel();
    assert!(has_greater_prec(&times, &plus));
    assert!(!has_greater_prec(&plus, &times));
    assert!(has_greater_prec(&plus, &minus));
    assert!(!has_greater_prec(&power, &power));
    assert!(!has_greater_prec(&sentinel, &plus));
    assert!(has_greater_prec(&plus, &sentinel));
}

#[test]
fn decimal_notation() {
    for n in [0u32, 7, 10, 99, 100, 1234, 4294967295] {
        let mut s = String::from("n=");
        push_decimal(&mut s, n);
        assert_eq!(s, format!("n={}", n));
    }
}

#[test]
fn decimal_literals() {
    for text in ["0", "12", "3.", "3.25", "1e10", "2.5E3", "7.e2", "007"] {
        assert!(check_decimal_literal(text), "{}", text);
        assert!(text.parse::<f64>().is_ok(), "{}", text);
    }
    for text in ["", ".5", "3e", "3.e", "1e5.3", "+3", "-3", "3 ", "1e+5", "x", "\u{663}", "1\u{663}"] {
        assert!(!check_decimal_literal(text), "{}", text);
    }
}

#[test]
fn width_of_a_character() {
    for c in ['a', '\u{7f}', '\u{80}', '\u{e9}', '\u{7ff}', '\u{800}', '\u{20ac}', '\u{ffff}', '\u{10000}', '\u{10ffff}'] {
        assert_eq!(utf8_width(c), c.len_utf8());
    }
}

#[test]
fn first_character_is_split_off() {
    assert_eq!(split_first("abc"), ('a', "bc"));
    assert_eq!(split_first("\u{e9}t\u{e9}"), ('\u{e9}', "t\u{e9}"));
    assert_eq!(split_first("\u{1f600}"), ('\u{1f600}', ""));
}

#[test]
fn split_between_characters() {
    assert_eq!(split_at_boundary("abc", 0), ("", "abc"));
    assert_eq!(split_at_boundary("abc", 3), ("abc", ""));
    assert_eq!(split_at_boundary("\u{e9}t\u{e9}", 3), ("\u{e9}t", "\u{e9}"));
}

#[test]
fn texts_are_compared_by_their_characters() {
    assert!(same_text("", ""));
    assert!(same_text("abc", "abc"));
    assert!(!same_text("abc", "abd"));
    assert!(!same_text("abc", "ab"));
    assert!(same_text("\u{e9}", "\u{e9}"));
    assert!(!same_text("\u{e9}", "e"));
}

#[test]
fn identifiers() {
    for text in ["a", "Z", "log", "zY"] {
        assert!(check_identifier(text), "{}", text);
    }
    for text in ["", "a1", "a b", "_", "a_b", "\u{e9}", "x\u{e9}", "1"] {
        assert!(!check_identifier(text), "{}", text);
    }
}

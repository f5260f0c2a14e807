use teac::parser::common::{compact_snippet, grammar_error, grammar_error_static, is_whitespace, parse_num, Error};
use teac::parser::Parser;

#[test]
fn snippets_collapse_whitespace() {
    assert_eq!(compact_snippet("  let  x\n\t= 1 ;  "), "let x = 1 ;");
    assert_eq!(compact_snippet(""), "<empty>");
    assert_eq!(compact_snippet(" \n\t "), "<empty>");
    assert_eq!(compact_snippet("a\u{3000}b"), "a b");
}

#[test]
fn long_snippets_are_cut() {
    let long = "x".repeat(60);
    let expected = format!("{}...", "x".repeat(48));
    assert_eq!(compact_snippet(&long), expected);
    let exact = "y".repeat(48);
    assert_eq!(compact_snippet(&exact), exact);
}

#[test]
fn whitespace_class() {
    assert!(is_whitespace(' '));
    assert!(is_whitespace('\u{85}'));
    assert!(!is_whitespace('a'));
    assert!(!is_whitespace('\u{200B}'));
}

#[test]
fn integer_literals() {
    assert!(matches!(parse_num("42", 1, 1), Ok(42)));
    assert!(matches!(parse_num("-2147483648", 1, 1), Ok(-2147483648)));
    assert!(matches!(parse_num("+007", 1, 1), Ok(7)));
    match parse_num("2147483648", 3, 9) {
        Err(Error::InvalidNumber { literal, line, column, .. }) => {
            assert_eq!(literal, "2147483648");
            assert_eq!((line, column), (3, 9));
        },
        _ => panic!("expected an error"),
    }
    assert!(parse_num("", 1, 1).is_err());
    assert!(parse_num("1a", 1, 1).is_err());
}

#[test]
fn grammar_error_messages() {
    match grammar_error("unexpected token", 2, 5, "let   x") {
        Error::Grammar(m) => assert_eq!(m, "unexpected token at line 2, column 5, near `let x`"),
        _ => panic!("expected a grammar error"),
    }
    match grammar_error_static("output before generate") {
        Error::Grammar(m) => assert_eq!(m, "output before generate"),
        _ => panic!("expected a grammar error"),
    }
}

#[test]
fn parser_starts_without_a_program() {
    let p = Parser::new("fn main() -> i32 { return 0; }");
    assert!(p.program.is_none());
    assert_eq!(p.input(), "fn main() -> i32 { return 0; }");
}

use legare::parse::diagnostic::decimal_of;
use legare::parse::grammar::{ParseError, MAX_DEPTH};
use legare::parse::text::{chars_of, is_member, skip_run, string_of, Class};

#[test]
fn characters_and_back() {
    let chars = chars_of("h\u{e9}llo \u{1f600}");
    assert_eq!(chars, vec!['h', '\u{e9}', 'l', 'l', 'o', ' ', '\u{1f600}']);
    assert_eq!(string_of(&chars, 0, 7), "h\u{e9}llo \u{1f600}");
    assert_eq!(string_of(&chars, 1, 3), "\u{e9}l");
    assert_eq!(string_of(&chars, 7, 7), "");
    assert_eq!(chars_of(""), vec![]);
}

#[test]
fn classes() {
    assert!(is_member(Class::Space, '\u{3000}'));
    assert!(!is_member(Class::Space, 'a'));
    assert!(is_member(Class::Solid, 'a'));
    assert!(!is_member(Class::Solid, '\t'));
    assert!(is_member(Class::Blank, ' '));
    assert!(!is_member(Class::Blank, '\t'));
    assert!(is_member(Class::Quoted, '('));
    assert!(!is_member(Class::Quoted, '"'));
    assert!(is_member(Class::Atom, '='));
    assert!(is_member(Class::Atom, '\t'));
    assert!(!is_member(Class::Atom, ' '));
    assert!(!is_member(Class::Atom, '('));
    assert!(!is_member(Class::Atom, ')'));
    assert!(!is_member(Class::Atom, '"'));
    assert!(is_member(Class::Side, 'a'));
    assert!(!is_member(Class::Side, '='));
    assert!(!is_member(Class::Side, ')'));
    assert!(is_member(Class::Digit, '0'));
    assert!(is_member(Class::Digit, '9'));
    assert!(!is_member(Class::Digit, 'a'));
    assert!(!is_member(Class::Digit, '\u{661}'));
    assert!(is_member(Class::Hash, '#'));
    assert!(!is_member(Class::Hash, '1'));
}

#[test]
fn runs() {
    let chars = chars_of("  ab=c)  ");
    assert_eq!(skip_run(&chars, 0, Class::Blank), 2);
    assert_eq!(skip_run(&chars, 2, Class::Blank), 2);
    assert_eq!(skip_run(&chars, 2, Class::Atom), 6);
    assert_eq!(skip_run(&chars, 2, Class::Side), 4);
    assert_eq!(skip_run(&chars, 7, Class::Blank), 9);
    assert_eq!(skip_run(&chars, 9, Class::Blank), 9);
    assert_eq!(skip_run(&chars, 0, Class::Quoted), 9);
}

#[test]
fn decimals() {
    assert_eq!(decimal_of(0), "0");
    assert_eq!(decimal_of(7), "7");
    assert_eq!(decimal_of(10), "10");
    assert_eq!(decimal_of(1234567890), "1234567890");
    assert_eq!(decimal_of(usize::MAX), format!("{}", usize::MAX));
}

#[test]
fn diagnostics() {
    let quote = ParseError::UnclosedQuote { opened: 3, at: 12 };
    assert_eq!(quote.position(), 12);
    assert_eq!(
        quote.lines(),
        vec![
            "position 12: the query ends inside a quote".to_string(),
            "expected `\"` to close the quote opened at position 3".to_string(),
        ]
    );
    let group = ParseError::UnclosedGroup { opened: 0, at: 100 };
    assert_eq!(group.position(), 100);
    assert_eq!(
        group.lines(),
        vec![
            "position 100: the query ends inside a group".to_string(),
            "expected `)` to close the group opened at position 0".to_string(),
        ]
    );
    let close = ParseError::UnexpectedClose { at: 9 };
    assert_eq!(close.position(), 9);
    assert_eq!(
        close.lines(),
        vec![
            "position 9: found `)` where no group is open".to_string(),
            "expected a term or the end of the query".to_string(),
        ]
    );
    let deep = ParseError::TooDeep { at: 64 };
    assert_eq!(deep.position(), 64);
    assert_eq!(MAX_DEPTH, 64);
    assert_eq!(
        deep.lines(),
        vec![
            "position 64: found `(` inside too many groups".to_string(),
            "expected at most 64 groups inside one another".to_string(),
        ]
    );
}

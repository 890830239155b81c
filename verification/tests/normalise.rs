use legare::parse::normalise::{canonicalise, fold, normalise};
use legare::parse::text::is_whitespace;

fn normalised(input: &str) -> String {
    normalise(format!("{}", input))
}

fn spaced(input: &str) -> String {
    normalised(&format!("x{}x", input))
}

#[test]
fn spaces() {
    // Usual spaces
    assert_eq!(spaced("\n"), "x x");
    assert_eq!(spaced("\t"), "x x");
    assert_eq!(spaced(" "), "x x");
    assert_eq!(spaced("\u{3000}"), "x x"); // IDEOGRAPHIC SPACE

    // Unusual spaces
    assert_eq!(spaced(" "), "x x"); // NBSP
    assert_eq!(spaced("\u{2000}"), "x x"); // EN QUAD
    assert_eq!(spaced("\u{2001}"), "x x"); // EM QUAD
    assert_eq!(spaced("\u{2002}"), "x x"); // EN SPACE
    assert_eq!(spaced("\u{2003}"), "x x"); // EM SPACE
    assert_eq!(spaced("\u{2007}"), "x x"); // FIGURE SPACE

    // Rare spaces
    assert_eq!(spaced("\u{85}"), "x x");
    assert_eq!(spaced("\u{2004}"), "x x");
    assert_eq!(spaced("\u{2005}"), "x x");
    assert_eq!(spaced("\u{2006}"), "x x");
    assert_eq!(spaced("\u{2008}"), "x x");
    assert_eq!(spaced("\u{2009}"), "x x");
    assert_eq!(spaced("\u{200A}"), "x x");
    assert_eq!(spaced("\u{202F}"), "x x");
    assert_eq!(spaced("\u{205F}"), "x x");

    // Space collapsing
    assert_eq!(spaced("      "), "x x");
    assert_eq!(spaced(" \n\t "), "x x");
}

#[test]
fn double_quotes() {
    assert_eq!(normalised("\""), "\"");
    assert_eq!(normalised("\u{201c}"), "\"");
    assert_eq!(normalised("\u{201d}"), "\"");
    assert_eq!(normalised("\u{ab}"), "\"");
    assert_eq!(normalised("\u{bb}"), "\"");
}

#[test]
fn single_quotes() {
    assert_eq!(normalised("'"), "'");
    assert_eq!(normalised("\u{2018}"), "'");
    assert_eq!(normalised("\u{2019}"), "'");
    assert_eq!(normalised("\u{2039}"), "'");
    assert_eq!(normalised("\u{203a}"), "'");
}

#[test]
fn brackets() {
    assert_eq!(normalised("("), "(");
    assert_eq!(normalised("{"), "(");
    assert_eq!(normalised("["), "(");

    assert_eq!(normalised(")"), ")");
    assert_eq!(normalised("}"), ")");
    assert_eq!(normalised("]"), ")");
}

#[test]
fn equals() {
    assert_eq!(normalised("="), "=");
    assert_eq!(normalised(":"), "=");
    assert_eq!(normalised("\u{2248}"), "=");
}

#[test]
fn dashes() {
    assert_eq!(normalised("-"), "-");
    assert_eq!(normalised("--"), "--");
    assert_eq!(normalised("\u{2014}"), "-");
    assert_eq!(normalised("\u{2013}"), "-");
    assert_eq!(normalised("\u{2012}"), "-");
    assert_eq!(normalised("\u{2053}"), "-");
    assert_eq!(normalised("\u{30fc}"), "-");
    assert_eq!(normalised("\u{2015}"), "-");
    assert_eq!(normalised("\u{2e3a}"), "-");
    assert_eq!(normalised("\u{2e3b}"), "-");
    assert_eq!(normalised("\u{301c}"), "-");
    assert_eq!(normalised("\u{ff5e}"), "-");
}

#[test]
fn separators_are_whitespace() {
    assert!(is_whitespace('\u{a0}'));
    assert_eq!(spaced("\u{a0}"), "x x");
    assert!(is_whitespace('\u{2028}'));
    assert!(is_whitespace('\u{2029}'));
    assert_eq!(spaced("\u{2028}"), "x x");
    assert_eq!(spaced("\u{2029}"), "x x");
    assert!(!is_whitespace('x'));
    assert!(!is_whitespace('\r'));
    assert!(!is_whitespace('\u{200b}'));
}

#[test]
fn lower_case() {
    assert_eq!(normalised("Hello WORLD"), "hello world");
    assert_eq!(normalised("\u{c9}COLE"), "\u{e9}cole");
    assert_eq!(normalised("\u{3a3}"), "\u{3c3}");
}

#[test]
fn canonicalise_keeps_case() {
    assert_eq!(canonicalise("Hello  WORLD"), "Hello WORLD");
}

#[test]
fn empty_and_blank() {
    assert_eq!(normalised(""), "");
    assert_eq!(normalised("   "), "");
    assert_eq!(normalised("\t\n"), "");
}

#[test]
fn trims_both_ends() {
    assert_eq!(normalised("  a  b  "), "a b");
    assert_eq!(normalised("\u{3000}one\u{2003}two\n"), "one two");
}

#[test]
fn dashes_fold_one_by_one() {
    assert_eq!(normalised("---"), "---");
    assert_eq!(normalised("a--b"), "a--b");
    assert_eq!(normalised("a\u{2014}\u{2013}b"), "a--b");
    assert_eq!(normalised("\u{2014}-\u{ff5e}"), "---");
    assert_eq!(normalised("a- -b"), "a- -b");
    assert_eq!(normalised("-a-"), "-a-");
}

#[test]
fn table_inside_words() {
    assert_eq!(normalised("Key:Value"), "key=value");
    assert_eq!(normalised("[a {b} c]"), "(a (b) c)");
    assert_eq!(normalised("\u{201c}To Be\u{201d}"), "\"to be\"");
    assert_eq!(fold('x'), 'x');
    assert_eq!(fold('\u{2248}'), '=');
}

#[test]
fn normalise_twice_is_normalise_once() {
    for raw in ["  A -- B  ", "---", "\u{201c}Q\u{201d} [x]:y", "", "a\u{2028}b", "\u{130}x"] {
        let once = normalised(raw);
        assert_eq!(normalised(&once), once);
    }
}

use legare::parse::grammar::{search, Match, ParseError, Rule, MAX_DEPTH};
use legare::parse::search::{tokenise, Token};
use legare::parse::text::chars_of;

fn node(rule: Rule, start: usize, end: usize, inner: Vec<Match>) -> Match {
    Match { rule, start, end, inner }
}

fn expression(start: usize, end: usize, inner: Vec<Match>) -> Match {
    node(Rule::Expression, start, end, inner)
}

fn group(start: usize, end: usize, inner: Vec<Match>) -> Match {
    node(Rule::Group, start, end, inner)
}

fn pair(start: usize, end: usize, inner: Vec<Match>) -> Match {
    node(Rule::Pair, start, end, inner)
}

fn word(start: usize, end: usize) -> Match {
    node(Rule::Word, start, end, vec![])
}

fn quote(start: usize, end: usize) -> Match {
    node(Rule::Quote, start, end, vec![])
}

fn id(start: usize, end: usize) -> Match {
    node(Rule::Id, start, end, vec![])
}

fn key(start: usize, end: usize) -> Match {
    node(Rule::Key, start, end, vec![])
}

fn value(start: usize, end: usize) -> Match {
    node(Rule::Value, start, end, vec![])
}

fn logic_and(start: usize, end: usize) -> Match {
    node(Rule::LogicAnd, start, end, vec![])
}

fn logic_or(start: usize, end: usize) -> Match {
    node(Rule::LogicOr, start, end, vec![])
}

fn logic_not(start: usize, end: usize) -> Match {
    node(Rule::LogicNot, start, end, vec![])
}

fn parses_to(input: &str, tokens: Vec<Match>) {
    assert_eq!(search(&chars_of(input)), Ok(tokens));
}

fn tokens_of(input: &str) -> Result<Vec<Token>, Vec<String>> {
    tokenise(input.to_string())
}

fn w(text: &str) -> Token {
    Token::Word(text.to_string())
}

fn q(text: &str) -> Token {
    Token::Quote(text.to_string())
}

fn p(key: &str, value: &str) -> Token {
    Token::Pair(key.to_string(), value.to_string())
}

#[test]
fn single_word() {
    parses_to("word", vec![expression(0, 4, vec![word(0, 4)])]);
}

#[test]
fn multiple_words() {
    parses_to(
        "one two three",
        vec![expression(0, 13, vec![word(0, 3), word(4, 7), word(8, 13)])],
    );
}

#[test]
fn ids() {
    //           0|       10|        20|  |22
    parses_to(
        "#123 #ash (#123) \"#123\"",
        vec![expression(
            0,
            23,
            vec![
                id(0, 4),
                word(5, 9),
                group(10, 16, vec![expression(11, 15, vec![id(11, 15)])]),
                quote(17, 23),
            ],
        )],
    );
}

#[test]
fn pairs() {
    //           0|       10|       20|        30|      38|
    parses_to(
        "word pair=2 (n=tuple word) \"pair=false\"",
        vec![expression(
            0,
            39,
            vec![
                word(0, 4),
                pair(5, 11, vec![key(5, 9), value(10, 11)]),
                group(
                    12,
                    26,
                    vec![expression(
                        13,
                        25,
                        vec![pair(13, 20, vec![key(13, 14), value(15, 20)]), word(21, 25)],
                    )],
                ),
                quote(27, 39),
            ],
        )],
    );
}

#[test]
fn logic() {
    //           0|       10|       20|         30|
    parses_to(
        "hamlet and to=be or not \"to be\"",
        vec![expression(
            0,
            31,
            vec![
                word(0, 6),
                logic_and(7, 10),
                pair(11, 16, vec![key(11, 13), value(14, 16)]),
                logic_or(17, 19),
                logic_not(20, 23),
                quote(24, 31),
            ],
        )],
    );
}

#[test]
fn empty_group() {
    parses_to("()", vec![expression(0, 2, vec![group(0, 2, vec![])])]);
}

#[test]
fn single_1group() {
    parses_to(
        "(item)",
        vec![expression(0, 6, vec![group(0, 6, vec![expression(1, 5, vec![word(1, 5)])])])],
    );
}

#[test]
fn single_3group() {
    parses_to(
        "(one two three)",
        vec![expression(
            0,
            15,
            vec![group(
                0,
                15,
                vec![expression(1, 14, vec![word(1, 4), word(5, 8), word(9, 14)])],
            )],
        )],
    );
}

#[test]
fn spaced_groups() {
    //           0|       10|       20|       30|       40|       50|     59|
    parses_to(
        "( spaced ) (tight) ( lefty) (righty ) ( a b ) (c d ) ( e f)",
        vec![expression(
            0,
            59,
            vec![
                // spaced
                group(0, 10, vec![expression(2, 8, vec![word(2, 8)])]),
                // tight
                group(11, 18, vec![expression(12, 17, vec![word(12, 17)])]),
                // lefty
                group(19, 27, vec![expression(21, 26, vec![word(21, 26)])]),
                // righty
                group(28, 37, vec![expression(29, 35, vec![word(29, 35)])]),
                // a b
                group(38, 45, vec![expression(40, 43, vec![word(40, 41), word(42, 43)])]),
                // c d
                group(46, 52, vec![expression(47, 50, vec![word(47, 48), word(49, 50)])]),
                // e f
                group(53, 59, vec![expression(55, 58, vec![word(55, 56), word(57, 58)])]),
            ],
        )],
    );
}

#[test]
fn nested_groups() {
    parses_to(
        "( outer (inner ))",
        vec![expression(
            0,
            17,
            vec![group(
                0,
                17,
                vec![expression(
                    2,
                    16,
                    vec![word(2, 7), group(8, 16, vec![expression(9, 14, vec![word(9, 14)])])],
                )],
            )],
        )],
    );
}

#[test]
fn quotes() {
    //           0|          10|         20|           30|
    parses_to(
        "a (b \"c\") \"d e\" \"f (g) h\" \")\" \"\"",
        vec![expression(
            0,
            32,
            vec![
                word(0, 1),
                group(2, 9, vec![expression(3, 8, vec![word(3, 4), quote(5, 8)])]),
                quote(10, 15),
                quote(16, 25),
                quote(26, 29),
                quote(30, 32),
            ],
        )],
    );
}

#[test]
fn token_classification() {
    assert_eq!(tokens_of("word"), Ok(vec![w("word")]));
    assert_eq!(tokens_of("#123"), Ok(vec![Token::Id(123)]));
    assert_eq!(tokens_of("#ash"), Ok(vec![w("#ash")]));
}

#[test]
fn nesting_fidelity() {
    assert_eq!(tokens_of("(#123)"), Ok(vec![Token::Group(vec![Token::Id(123)])]));
    assert_eq!(tokens_of("()"), Ok(vec![Token::Group(vec![])]));
    assert_eq!(
        tokens_of("(((a)))"),
        Ok(vec![Token::Group(vec![Token::Group(vec![Token::Group(vec![w("a")])])])])
    );
}

#[test]
fn pair_quote_logic() {
    assert_eq!(tokens_of("pair=2"), Ok(vec![p("pair", "2")]));
    assert_eq!(tokens_of("\"#123\""), Ok(vec![q("#123")]));
    assert_eq!(tokens_of("a and b"), Ok(vec![w("a"), Token::LogicAnd(()), w("b")]));
    assert_eq!(
        tokens_of("not a or b"),
        Ok(vec![Token::LogicNot(()), w("a"), Token::LogicOr(()), w("b")])
    );
}

#[test]
fn unbalanced_group_fails() {
    let lines = tokens_of("(word").unwrap_err();
    assert_eq!(
        lines,
        vec![
            "position 5: the query ends inside a group".to_string(),
            "expected `)` to close the group opened at position 0".to_string(),
        ]
    );
}

#[test]
fn mixed_scenario() {
    assert_eq!(
        tokens_of("#123 #ash (#123) \"#123\""),
        Ok(vec![Token::Id(123), w("#ash"), Token::Group(vec![Token::Id(123)]), q("#123")])
    );
}

#[test]
fn blank_queries_have_no_tokens() {
    assert_eq!(tokens_of(""), Ok(vec![]));
    assert_eq!(tokens_of("   "), Ok(vec![]));
    parses_to("", vec![]);
    parses_to("  ", vec![]);
}

#[test]
fn each_failure() {
    assert_eq!(
        search(&chars_of("a \"bc")),
        Err(ParseError::UnclosedQuote { opened: 2, at: 5 })
    );
    assert_eq!(
        search(&chars_of("(a (b)")),
        Err(ParseError::UnclosedGroup { opened: 0, at: 6 })
    );
    assert_eq!(search(&chars_of("a) b")), Err(ParseError::UnexpectedClose { at: 1 }));
    let deep = "(".repeat(MAX_DEPTH + 1);
    assert_eq!(search(&chars_of(&deep)), Err(ParseError::TooDeep { at: MAX_DEPTH }));
}

#[test]
fn failure_lines() {
    assert_eq!(
        tokens_of("say \"hi").unwrap_err(),
        vec![
            "position 7: the query ends inside a quote".to_string(),
            "expected `\"` to close the quote opened at position 4".to_string(),
        ]
    );
    assert_eq!(
        tokens_of("a )").unwrap_err(),
        vec![
            "position 2: found `)` where no group is open".to_string(),
            "expected a term or the end of the query".to_string(),
        ]
    );
    let deep = format!("{}x{}", "(".repeat(65), ")".repeat(65));
    assert_eq!(
        tokens_of(&deep).unwrap_err(),
        vec![
            "position 64: found `(` inside too many groups".to_string(),
            "expected at most 64 groups inside one another".to_string(),
        ]
    );
}

#[test]
fn deepest_nesting_is_kept() {
    let deep = format!("{}x{}", "(".repeat(MAX_DEPTH), ")".repeat(MAX_DEPTH));
    let mut tokens = tokens_of(&deep).unwrap();
    let mut depth = 0;
    loop {
        assert_eq!(tokens.len(), 1);
        match tokens.pop().unwrap() {
            Token::Group(inside) => {
                depth += 1;
                tokens = inside;
            }
            other => {
                assert_eq!(other, w("x"));
                break;
            }
        }
    }
    assert_eq!(depth, MAX_DEPTH);
}

#[test]
fn pairs_need_one_equals_and_two_sides() {
    assert_eq!(tokens_of("a=b"), Ok(vec![p("a", "b")]));
    assert_eq!(tokens_of("a=b=c"), Ok(vec![w("a=b=c")]));
    assert_eq!(tokens_of("=b"), Ok(vec![w("=b")]));
    assert_eq!(tokens_of("a="), Ok(vec![w("a=")]));
    assert_eq!(tokens_of("="), Ok(vec![w("=")]));
    assert_eq!(tokens_of("a = b"), Ok(vec![w("a"), w("="), w("b")]));
    assert_eq!(tokens_of("#1=#2"), Ok(vec![p("#1", "#2")]));
    assert_eq!(tokens_of("and=or"), Ok(vec![p("and", "or")]));
}

#[test]
fn ids_are_hash_and_digits_only() {
    assert_eq!(tokens_of("#0"), Ok(vec![Token::Id(0)]));
    assert_eq!(tokens_of("#007"), Ok(vec![Token::Id(7)]));
    assert_eq!(tokens_of("#"), Ok(vec![w("#")]));
    assert_eq!(tokens_of("#12a"), Ok(vec![w("#12a")]));
    assert_eq!(tokens_of("##12"), Ok(vec![w("##12")]));
    assert_eq!(tokens_of("12"), Ok(vec![w("12")]));
    assert_eq!(tokens_of("#+12"), Ok(vec![w("#+12")]));
    assert_eq!(tokens_of("#12(a)"), Ok(vec![Token::Id(12), Token::Group(vec![w("a")])]));
}

#[test]
fn ids_too_large_are_words() {
    let max = format!("#{}", usize::MAX);
    assert_eq!(tokens_of(&max), Ok(vec![Token::Id(usize::MAX)]));
    let over = format!("#{}0", usize::MAX);
    assert_eq!(tokens_of(&over), Ok(vec![w(&over)]));
    assert_eq!(
        tokens_of("#99999999999999999999999999"),
        Ok(vec![w("#99999999999999999999999999")])
    );
}

#[test]
fn connectives_stand_alone() {
    assert_eq!(tokens_of("android"), Ok(vec![w("android")]));
    assert_eq!(tokens_of("nor"), Ok(vec![w("nor")]));
    assert_eq!(tokens_of("AND"), Ok(vec![w("AND")]));
    assert_eq!(tokens_of("(and)"), Ok(vec![Token::Group(vec![Token::LogicAnd(())])]));
    assert_eq!(tokens_of("\"and\""), Ok(vec![q("and")]));
}

#[test]
fn quotes_are_opaque() {
    assert_eq!(tokens_of("\"a (b) c=d #1\""), Ok(vec![q("a (b) c=d #1")]));
    assert_eq!(tokens_of("\"\""), Ok(vec![q("")]));
    assert_eq!(tokens_of("\"a\"\"b\""), Ok(vec![q("a"), q("b")]));
    assert_eq!(tokens_of("x\"y\"z"), Ok(vec![w("x"), q("y"), w("z")]));
}

#[test]
fn positions_count_characters() {
    parses_to(
        "\u{e9}t\u{e9} (\u{263a})",
        vec![expression(
            0,
            7,
            vec![word(0, 3), group(4, 7, vec![expression(5, 6, vec![word(5, 6)])])],
        )],
    );
    assert_eq!(
        tokens_of("\u{e9}t\u{e9} (\u{263a})"),
        Ok(vec![w("\u{e9}t\u{e9}"), Token::Group(vec![w("\u{263a}")])])
    );
}

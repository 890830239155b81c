use legare::parse::grammar::{Match, Rule};
use legare::parse::search::{
    ex, expression, group_ex, pair_ex, parse, parse_number, quote_ex, Token,
};
use legare::parse::text::chars_of;

fn node(rule: Rule, start: usize, end: usize, inner: Vec<Match>) -> Match {
    Match { rule, start, end, inner }
}

fn leaf(rule: Rule, start: usize, end: usize) -> Match {
    node(rule, start, end, vec![])
}

fn word(text: &str) -> Token {
    Token::Word(text.to_string())
}

#[test]
fn text_of_a_match() {
    let chars = chars_of("one two");
    assert_eq!(ex(&chars, &leaf(Rule::Word, 4, 7)), "two");
    assert_eq!(ex(&chars, &leaf(Rule::Word, 0, 7)), "one two");
    assert_eq!(ex(&chars, &leaf(Rule::Word, 3, 3)), "");
}

#[test]
fn quote_loses_its_delimiters() {
    let chars = chars_of("a \"b c\" d");
    assert_eq!(quote_ex(&chars, &leaf(Rule::Quote, 2, 7)), "b c");
    let empty = chars_of("\"\"");
    assert_eq!(quote_ex(&empty, &leaf(Rule::Quote, 0, 2)), "");
}

#[test]
fn pair_takes_its_first_two_matches() {
    let chars = chars_of("key=value");
    let whole = node(
        Rule::Pair,
        0,
        9,
        vec![leaf(Rule::Key, 0, 3), leaf(Rule::Value, 4, 9)],
    );
    assert_eq!(pair_ex(&chars, &whole), Some(("key".to_string(), "value".to_string())));
    let more = node(
        Rule::Pair,
        0,
        9,
        vec![leaf(Rule::Key, 0, 1), leaf(Rule::Value, 1, 2), leaf(Rule::Value, 2, 3)],
    );
    assert_eq!(pair_ex(&chars, &more), Some(("k".to_string(), "e".to_string())));
}

#[test]
fn pair_without_two_sides_is_nothing() {
    let chars = chars_of("key=value");
    assert_eq!(pair_ex(&chars, &node(Rule::Pair, 0, 9, vec![])), None);
    assert_eq!(pair_ex(&chars, &node(Rule::Pair, 0, 9, vec![leaf(Rule::Key, 0, 3)])), None);
}

#[test]
fn incomplete_pair_is_dropped() {
    let chars = chars_of("a k=v b");
    let matches = vec![
        leaf(Rule::Word, 0, 1),
        node(Rule::Pair, 2, 5, vec![leaf(Rule::Key, 2, 3)]),
        leaf(Rule::Word, 6, 7),
    ];
    assert_eq!(expression(&chars, &matches), vec![word("a"), word("b")]);
}

#[test]
fn group_without_expression_is_empty() {
    let chars = chars_of("(a)");
    assert_eq!(group_ex(&chars, &node(Rule::Group, 0, 3, vec![])), vec![]);
    assert_eq!(
        group_ex(&chars, &node(Rule::Group, 0, 3, vec![leaf(Rule::Word, 1, 2)])),
        vec![]
    );
    assert_eq!(
        expression(&chars, &vec![node(Rule::Group, 0, 3, vec![leaf(Rule::Word, 1, 2)])]),
        vec![Token::Group(vec![])]
    );
}

#[test]
fn group_holds_the_tokens_of_its_expression() {
    let chars = chars_of("(a b)");
    let inside = node(
        Rule::Expression,
        1,
        4,
        vec![leaf(Rule::Word, 1, 2), leaf(Rule::Word, 3, 4)],
    );
    assert_eq!(
        group_ex(&chars, &node(Rule::Group, 0, 5, vec![inside])),
        vec![word("a"), word("b")]
    );
}

#[test]
fn id_that_is_no_number_is_a_word() {
    let chars = chars_of("#12x #+7 ## #99999999999999999999999999 12");
    assert_eq!(
        expression(
            &chars,
            &vec![
                leaf(Rule::Id, 0, 4),
                leaf(Rule::Id, 5, 8),
                leaf(Rule::Id, 9, 11),
                leaf(Rule::Id, 12, 39),
                leaf(Rule::Id, 40, 42),
                leaf(Rule::Id, 0, 3),
                leaf(Rule::Id, 9, 9),
            ]
        ),
        vec![
            word("#12x"),
            Token::Id(7),
            word("##"),
            word("#99999999999999999999999999"),
            Token::Id(12),
            Token::Id(12),
            word(""),
        ]
    );
}

#[test]
fn matches_that_are_no_terms_give_nothing() {
    let chars = chars_of("a=b");
    assert_eq!(
        expression(
            &chars,
            &vec![
                leaf(Rule::Key, 0, 1),
                leaf(Rule::Value, 2, 3),
                node(Rule::Expression, 0, 3, vec![leaf(Rule::Word, 0, 3)]),
            ]
        ),
        vec![]
    );
}

#[test]
fn every_rule_has_its_token() {
    let chars = chars_of("w \"q\" and or not #5 k=v (g)");
    let matches = vec![
        leaf(Rule::Word, 0, 1),
        leaf(Rule::Quote, 2, 5),
        leaf(Rule::LogicAnd, 6, 9),
        leaf(Rule::LogicOr, 10, 12),
        leaf(Rule::LogicNot, 13, 16),
        leaf(Rule::Id, 17, 19),
        node(Rule::Pair, 20, 23, vec![leaf(Rule::Key, 20, 21), leaf(Rule::Value, 22, 23)]),
        node(
            Rule::Group,
            24,
            27,
            vec![node(Rule::Expression, 25, 26, vec![leaf(Rule::Word, 25, 26)])],
        ),
    ];
    assert_eq!(
        expression(&chars, &matches),
        vec![
            word("w"),
            Token::Quote("q".to_string()),
            Token::LogicAnd(()),
            Token::LogicOr(()),
            Token::LogicNot(()),
            Token::Id(5),
            Token::Pair("k".to_string(), "v".to_string()),
            Token::Group(vec![word("g")]),
        ]
    );
}

#[test]
fn parse_gives_the_terms() {
    assert_eq!(
        parse(&chars_of(" a (b) ")),
        Ok(vec![
            leaf(Rule::Word, 1, 2),
            node(
                Rule::Group,
                3,
                6,
                vec![node(Rule::Expression, 4, 5, vec![leaf(Rule::Word, 4, 5)])]
            ),
        ])
    );
    assert_eq!(parse(&chars_of("")), Ok(vec![]));
    assert_eq!(
        parse(&chars_of(")")),
        Err(vec![
            "position 0: found `)` where no group is open".to_string(),
            "expected a term or the end of the query".to_string(),
        ])
    );
}

#[test]
fn numbers() {
    assert_eq!(parse_number(&chars_of("123"), 0), Some(123));
    assert_eq!(parse_number(&chars_of("#123"), 1), Some(123));
    assert_eq!(parse_number(&chars_of("+123"), 0), Some(123));
    assert_eq!(parse_number(&chars_of("000"), 0), Some(0));
    assert_eq!(parse_number(&chars_of(""), 0), None);
    assert_eq!(parse_number(&chars_of("+"), 0), None);
    assert_eq!(parse_number(&chars_of("++1"), 0), None);
    assert_eq!(parse_number(&chars_of("-1"), 0), None);
    assert_eq!(parse_number(&chars_of("1 "), 0), None);
    assert_eq!(parse_number(&chars_of("12a"), 0), None);
    assert_eq!(parse_number(&chars_of("\u{661}"), 0), None);
    assert_eq!(parse_number(&chars_of("12"), 2), None);
    let max = format!("{}", usize::MAX);
    assert_eq!(parse_number(&chars_of(&max), 0), Some(usize::MAX));
    let over = format!("{}", usize::MAX as u128 + 1);
    assert_eq!(parse_number(&chars_of(&over), 0), None);
}

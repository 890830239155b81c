use legare::parse::search::{tokenise, Token};
use legare::parse::written::to_text;

fn word(text: &str) -> Token {
    Token::Word(text.to_string())
}

fn sample() -> Vec<Token> {
    vec![
        word("hamlet"),
        Token::LogicAnd(()),
        Token::Pair("to".to_string(), "be".to_string()),
        Token::LogicOr(()),
        Token::LogicNot(()),
        Token::Quote("to (be) #1 a=b".to_string()),
        Token::Id(0),
        Token::Id(usize::MAX),
        word("#ash"),
        word("=x"),
        Token::Group(vec![]),
        Token::Group(vec![Token::Id(123), Token::Group(vec![word("deep"), Token::Quote(String::new())])]),
    ]
}

#[test]
fn tokens_as_text() {
    assert_eq!(to_text(&vec![]), "");
    assert_eq!(to_text(&vec![word("one")]), "one");
    assert_eq!(
        to_text(&sample()),
        format!(
            "hamlet and to=be or not \"to (be) #1 a=b\" #0 #{} #ash =x () (#123 (deep \"\"))",
            usize::MAX
        )
    );
}

#[test]
fn written_tokens_read_back() {
    assert_eq!(tokenise(to_text(&sample())), Ok(sample()));
    assert_eq!(tokenise(to_text(&vec![])), Ok(vec![]));
}

#[test]
fn read_tokens_write_back() {
    for query in ["a (b \"c d\") e=f #7 not g", "", "()", "((x) y)", "#99999999999999999999999999"] {
        let tokens = tokenise(query.to_string()).unwrap();
        assert_eq!(to_text(&tokens), query);
    }
    let spaced = tokenise("  a   (  b )  #007 ".to_string()).unwrap();
    assert_eq!(to_text(&spaced), "a (b) #7");
}

#[test]
fn bracketed_query_is_one_group() {
    for query in ["a b", "", "  x  ", "(a) \"b c\" #4", "k=v and not (w)"] {
        let inside = tokenise(query.to_string()).unwrap();
        assert_eq!(tokenise(format!("({})", query)), Ok(vec![Token::Group(inside)]));
    }
}

#[test]
fn spaced_queries_give_both() {
    for (first, second) in [("a b", "c"), ("", "x"), ("(a)", ""), ("\"q\"", "#1 k=v"), ("", "")] {
        let mut both = tokenise(first.to_string()).unwrap();
        both.extend(tokenise(second.to_string()).unwrap());
        assert_eq!(tokenise(format!("{} {}", first, second)), Ok(both));
    }
}

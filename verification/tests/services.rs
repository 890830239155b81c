use legare::graph::Root;
use legare::handler::{
    bad_io, bad_parse, good, parse, Envelope, Response, STATUS_BAD_REQUEST,
    STATUS_INTERNAL_SERVER_ERROR, STATUS_OK,
};
use legare::parse::search::Token;

fn word(text: &str) -> Token {
    Token::Word(text.to_string())
}

#[test]
fn statuses() {
    assert_eq!(STATUS_OK, 200);
    assert_eq!(STATUS_BAD_REQUEST, 400);
    assert_eq!(STATUS_INTERNAL_SERVER_ERROR, 500);
}

#[test]
fn unread_body() {
    let reply = bad_io("stream closed".to_string());
    assert_eq!(
        reply,
        Response {
            status: 500,
            body: Envelope::Io {
                reason: "Something went wrong reading the body of the request.".to_string(),
                details: "stream closed".to_string(),
            },
        }
    );
    assert_eq!(reply.body.error(), Some("io".to_string()));
    assert_eq!(parse(Err("stream closed".to_string())), reply);
}

#[test]
fn malformed_query() {
    let lines = vec!["first".to_string(), "second".to_string()];
    let reply = bad_parse(lines.clone());
    assert_eq!(
        reply,
        Response {
            status: 400,
            body: Envelope::Parse {
                reason: "The format of the search query is bad.".to_string(),
                details: lines,
            },
        }
    );
    assert_eq!(reply.body.error(), Some("parse".to_string()));
}

#[test]
fn served_query() {
    let reply = good("a b".to_string(), vec![word("a"), word("b")]);
    assert_eq!(
        reply,
        Response {
            status: 200,
            body: Envelope::Good {
                normalised: "a b".to_string(),
                parsed: vec![word("a"), word("b")],
            },
        }
    );
    assert_eq!(reply.body.error(), None);
}

#[test]
fn request_is_normalised_then_parsed() {
    assert_eq!(
        parse(Ok("  Hamlet  \u{201c}To Be\u{201d} [Act:3 \u{2014} #12]  ".to_string())),
        good(
            "hamlet \"to be\" (act=3 - #12)".to_string(),
            vec![
                word("hamlet"),
                Token::Quote("to be".to_string()),
                Token::Group(vec![
                    Token::Pair("act".to_string(), "3".to_string()),
                    word("-"),
                    Token::Id(12),
                ]),
            ]
        )
    );
    assert_eq!(parse(Ok(String::new())), good(String::new(), vec![]));
}

#[test]
fn request_with_a_bad_query() {
    assert_eq!(
        parse(Ok("{Word".to_string())),
        bad_parse(vec![
            "position 5: the query ends inside a group".to_string(),
            "expected `)` to close the group opened at position 0".to_string(),
        ])
    );
}

#[test]
fn root_services() {
    let root = Root::new();
    assert_eq!(root, Root {});
    assert_eq!(
        root.hello(),
        vec![
            "Mihi est hic?".to_string(),
            "Tu exaudi me?".to_string(),
            "Si vales bene est, ego valeo.".to_string(),
        ]
    );
    assert_eq!(root.ping(), "pong");
    assert_eq!(root.normalise(" A\u{3000}B ".to_string()), "a b");
    assert_eq!(root.parse("A [B]".to_string()), Ok(vec![word("a"), Token::Group(vec![word("b")])]));
    assert_eq!(root.parse("  ".to_string()), Ok(vec![]));
    assert_eq!(
        root.parse("say \u{201c}hi".to_string()),
        Err(vec![
            "position 7: the query ends inside a quote".to_string(),
            "expected `\"` to close the quote opened at position 4".to_string(),
        ])
    );
}

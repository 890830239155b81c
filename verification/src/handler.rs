//! What is answered to a request: the status and the envelope for each way
//! a request can end.

use vstd::prelude::*;
use vstd::string::*;
use crate::parse::diagnostic::texts;
use crate::parse::normalise::{normalise, normalised};
use crate::parse::search::{token_views, tokenise, tokenised, Expression, TokenView};

verus! {

/// The status of a reply to a query that was read and parsed.
pub const STATUS_OK: u16 = 200;

/// The status of a reply to a query that is malformed.
pub const STATUS_BAD_REQUEST: u16 = 400;

/// The status of a reply to a request whose body could not be read.
pub const STATUS_INTERNAL_SERVER_ERROR: u16 = 500;

/// The body of a reply.
#[allow(inconsistent_fields)]
#[derive(Debug, PartialEq, Eq)]
pub enum Envelope {
    /// The body of the request could not be read.
    Io { reason: String, details: String },
    /// The query is malformed; `details` holds the diagnostic lines.
    Parse { reason: String, details: Vec<String> },
    /// The query in canonical form, and its tokens.
    Good { normalised: String, parsed: Expression },
}

/// A reply: a status and a body.
#[derive(Debug, PartialEq, Eq)]
pub struct Response {
    pub status: u16,
    pub body: Envelope,
}

/// The reason given where the body of a request could not be read.
pub open spec fn io_reason() -> Seq<char> {
    "Something went wrong reading the body of the request."@
}

/// The reason given where a query is malformed.
pub open spec fn parse_reason() -> Seq<char> {
    "The format of the search query is bad."@
}

/// Whether `r` reports, with the given details, that the body of the
/// request could not be read.
pub open spec fn reports_io(r: Response, failure: Seq<char>) -> bool {
    &&& r.status == STATUS_INTERNAL_SERVER_ERROR
    &&& r.body matches Envelope::Io { reason, details }
    &&& reason@ == io_reason()
    &&& details@ == failure
}

/// Whether `r` reports a malformed query with the given diagnostic lines.
pub open spec fn reports_parse(r: Response, lines: Seq<Seq<char>>) -> bool {
    &&& r.status == STATUS_BAD_REQUEST
    &&& r.body matches Envelope::Parse { reason, details }
    &&& reason@ == parse_reason()
    &&& texts(details@) == lines
}

/// Whether `r` answers with a canonical query and its tokens.
pub open spec fn reports_good(r: Response, normed: Seq<char>, tokens: Seq<TokenView>) -> bool {
    &&& r.status == STATUS_OK
    &&& r.body matches Envelope::Good { normalised, parsed }
    &&& normalised@ == normed
    &&& token_views(parsed@) == tokens
}

/// What is answered to a request: a body that could not be read is
/// reported as such; a query that is read is normalised and parsed, and
/// the reply holds either both results or the diagnostics.
pub open spec fn answers(r: Response, body: Result<String, String>) -> bool {
    match body {
        Err(failure) => reports_io(r, failure@),
        Ok(query) => match tokenised(normalised(query@)) {
            Ok(tokens) => reports_good(r, normalised(query@), tokens),
            Err(lines) => reports_parse(r, lines),
        },
    }
}

impl Envelope {
    /// What the envelope's `error` field names: the kind of failure, or
    /// nothing where the request was served.
    pub fn error(&self) -> (kind: Option<String>)
        ensures
            match *self {
                Envelope::Io { .. } => kind matches Some(name) && name@ == "io"@,
                Envelope::Parse { .. } => kind matches Some(name) && name@ == "parse"@,
                Envelope::Good { .. } => kind is None,
            },
    {
        match self {
            Envelope::Io { .. } => Some(String::from_str("io")),
            Envelope::Parse { .. } => Some(String::from_str("parse")),
            Envelope::Good { .. } => None,
        }
    }
}

/// The reply where the body of the request could not be read.
pub fn bad_io(e: String) -> (resp: Response)
    ensures
        reports_io(resp, e@),
{
    Response {
        status: STATUS_INTERNAL_SERVER_ERROR,
        body: Envelope::Io {
            reason: String::from_str("Something went wrong reading the body of the request."),
            details: e,
        },
    }
}

/// The reply where the query is malformed.
pub fn bad_parse(details: Vec<String>) -> (resp: Response)
    ensures
        reports_parse(resp, texts(details@)),
{
    Response {
        status: STATUS_BAD_REQUEST,
        body: Envelope::Parse {
            reason: String::from_str("The format of the search query is bad."),
            details,
        },
    }
}

/// The reply that holds a canonical query and its tokens.
pub fn good(normed: String, parsed: Expression) -> (resp: Response)
    ensures
        reports_good(resp, normed@, token_views(parsed@)),
{
    Response { status: STATUS_OK, body: Envelope::Good { normalised: normed, parsed } }
}

/// Answers a request, given what reading its body gave: the query, or the
/// failure in words.
pub fn parse(body: Result<String, String>) -> (resp: Response)
    ensures
        answers(resp, body),
{
    match body {
        Err(e) => bad_io(e),
        Ok(query) => {
            let normed = normalise(query);
            let data = tokenise(normed.clone());
            match data {
                Err(details) => bad_parse(details),
                Ok(tokens) => good(normed, tokens),
            }
        },
    }
}

} // verus!

//! The query object: normalising and parsing as two operations of their
//! own.

use vstd::prelude::*;
use vstd::string::*;
use crate::parse::diagnostic::texts;
use crate::parse::normalise::{normalise, normalised};
use crate::parse::search::{token_views, tokenise, tokenised, Expression, TokenView};

verus! {

/// The root of the queries.
#[derive(Debug, PartialEq, Eq)]
pub struct Root {}

/// The greeting that `hello` gives.
pub open spec fn greeting() -> Seq<Seq<char>> {
    seq!["Mihi est hic?"@, "Tu exaudi me?"@, "Si vales bene est, ego valeo."@]
}

impl Root {
    pub fn new() -> (root: Root)
        ensures
            root == (Root {  }),
    {
        Root {  }
    }

    /// A greeting in three lines.
    pub fn hello(&self) -> (lines: Vec<String>)
        ensures
            texts(lines@) == greeting(),
    {
        let mut lines: Vec<String> = Vec::new();
        lines.push(String::from_str("Mihi est hic?"));
        lines.push(String::from_str("Tu exaudi me?"));
        lines.push(String::from_str("Si vales bene est, ego valeo."));
        assert(texts(lines@) =~= greeting());
        lines
    }

    /// The answer to a ping.
    pub fn ping(&self) -> (answer: String)
        ensures
            answer@ == "pong"@,
    {
        String::from_str("pong")
    }

    /// The canonical form of a search.
    pub fn normalise(&self, search: String) -> (out: String)
        ensures
            out@ == normalised(search@),
    {
        normalise(search)
    }

    /// The tokens of a search in canonical form, or the lines that tell why
    /// its canonical form is no query.
    pub fn parse(&self, search: String) -> (r: Result<Expression, Vec<String>>)
        ensures
            match r {
                Ok(tokens) => tokenised(normalised(search@)) == Ok::<_, Seq<Seq<char>>>(
                    token_views(tokens@),
                ),
                Err(lines) => tokenised(normalised(search@)) == Err::<Seq<TokenView>, _>(
                    texts(lines@),
                ) && lines.len() > 0,
            },
    {
        let normed = normalise(search);
        tokenise(normed)
    }
}

} // verus!

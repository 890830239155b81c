//! Diagnostics: a failed parse told in lines that can be shown as they are.

use vstd::prelude::*;
use vstd::string::*;
use crate::parse::grammar::{ParseError, MAX_DEPTH};

verus! {

/// The character for a digit below ten.
pub open spec fn digit_char(d: nat) -> char {
    if d == 0 {
        '0'
    } else if d == 1 {
        '1'
    } else if d == 2 {
        '2'
    } else if d == 3 {
        '3'
    } else if d == 4 {
        '4'
    } else if d == 5 {
        '5'
    } else if d == 6 {
        '6'
    } else if d == 7 {
        '7'
    } else if d == 8 {
        '8'
    } else {
        '9'
    }
}

/// A number in decimal digits, without leading zeros.
pub open spec fn decimal(n: nat) -> Seq<char>
    decreases n,
{
    if n < 10 {
        seq![digit_char(n)]
    } else {
        decimal(n / 10).push(digit_char(n % 10))
    }
}

/// `head`, a number in decimal, `tail`.
pub open spec fn numbered(head: Seq<char>, number: nat, tail: Seq<char>) -> Seq<char> {
    head + decimal(number) + tail
}

/// The lines that tell of a failed parse: first where the parser stopped
/// and what it found there, then what it expected.
pub open spec fn diagnostic(e: ParseError) -> Seq<Seq<char>> {
    match e {
        ParseError::UnclosedQuote { opened, at } => seq![
            numbered("position "@, at as nat, ": the query ends inside a quote"@),
            numbered("expected `\"` to close the quote opened at position "@, opened as nat, ""@),
        ],
        ParseError::UnclosedGroup { opened, at } => seq![
            numbered("position "@, at as nat, ": the query ends inside a group"@),
            numbered("expected `)` to close the group opened at position "@, opened as nat, ""@),
        ],
        ParseError::UnexpectedClose { at } => seq![
            numbered("position "@, at as nat, ": found `)` where no group is open"@),
            "expected a term or the end of the query"@,
        ],
        ParseError::TooDeep { at } => seq![
            numbered("position "@, at as nat, ": found `(` inside too many groups"@),
            numbered("expected at most "@, MAX_DEPTH as nat, " groups inside one another"@),
        ],
    }
}

/// The texts of the lines, in order.
pub open spec fn texts(lines: Seq<String>) -> Seq<Seq<char>> {
    lines.map_values(|line: String| line@)
}

fn digit_of(d: usize) -> (c: char)
    requires
        d < 10,
    ensures
        c == digit_char(d as nat),
{
    match d {
        0 => '0',
        1 => '1',
        2 => '2',
        3 => '3',
        4 => '4',
        5 => '5',
        6 => '6',
        7 => '7',
        8 => '8',
        _ => '9',
    }
}

/// Writes a number in decimal.
pub fn decimal_of(n: usize) -> (text: String)
    ensures
        text@ == decimal(n as nat),
    decreases n,
{
    if n < 10 {
        let mut text = String::new();
        text.push(digit_of(n));
        assert(text@ =~= seq![digit_char(n as nat)]);
        text
    } else {
        let mut text = decimal_of(n / 10);
        text.push(digit_of(n % 10));
        text
    }
}

fn number_line(head: &str, number: usize, tail: &str) -> (line: String)
    ensures
        line@ == numbered(head@, number as nat, tail@),
{
    let mut line = String::from_str(head);
    let digits = decimal_of(number);
    line.append(digits.as_str());
    line.append(tail);
    line
}

impl ParseError {
    /// The position at which the parser stopped.
    pub fn position(&self) -> (at: usize)
        ensures
            at == match *self {
                ParseError::UnclosedQuote { opened, at } => at,
                ParseError::UnclosedGroup { opened, at } => at,
                ParseError::UnexpectedClose { at } => at,
                ParseError::TooDeep { at } => at,
            },
    {
        match *self {
            ParseError::UnclosedQuote { opened, at } => at,
            ParseError::UnclosedGroup { opened, at } => at,
            ParseError::UnexpectedClose { at } => at,
            ParseError::TooDeep { at } => at,
        }
    }

    /// The failure told in lines, each fit to be shown on its own.
    pub fn lines(&self) -> (lines: Vec<String>)
        ensures
            texts(lines@) == diagnostic(*self),
            lines.len() == 2,
    {
        let mut lines: Vec<String> = Vec::new();
        match *self {
            ParseError::UnclosedQuote { opened, at } => {
                lines.push(number_line("position ", at, ": the query ends inside a quote"));
                lines.push(
                    number_line("expected `\"` to close the quote opened at position ", opened, ""),
                );
            },
            ParseError::UnclosedGroup { opened, at } => {
                lines.push(number_line("position ", at, ": the query ends inside a group"));
                lines.push(
                    number_line("expected `)` to close the group opened at position ", opened, ""),
                );
            },
            ParseError::UnexpectedClose { at } => {
                lines.push(number_line("position ", at, ": found `)` where no group is open"));
                lines.push(String::from_str("expected a term or the end of the query"));
            },
            ParseError::TooDeep { at } => {
                lines.push(number_line("position ", at, ": found `(` inside too many groups"));
                lines.push(number_line("expected at most ", MAX_DEPTH, " groups inside one another"));
            },
        }
        assert(texts(lines@) =~= diagnostic(*self));
        lines
    }
}

} // verus!

//! The query parser: from a normalised query to a tree of tokens.
//!
//! The grammar finds the matches of a query; the functions here turn the
//! matches into tokens, a group's matches into the tokens inside the group.

use vstd::prelude::*;
use crate::parse::diagnostic::{diagnostic, texts};
use crate::parse::grammar::{
    all_within,
    matched,
    search,
    views,
    views_index,
    within,
    Match,
    MatchView,
    Rule,
};
use crate::parse::text::{chars_of, digit, run_end, skip_run, string_of, Class};

verus! {

/// A query: its tokens from left to right.
pub type Expression = Vec<Token>;

/// One classified unit of a search query.
#[derive(Debug, PartialEq, Eq)]
pub enum Token {
    /// A run of characters that is nothing more special.
    Word(String),
    /// A key and a value that stood on either side of one `=`.
    Pair(String, String),
    /// The number behind a `#`.
    Id(usize),
    /// What stood between two `"`.
    Quote(String),
    /// The connective `and`.
    LogicAnd(()),
    /// The connective `not`.
    LogicNot(()),
    /// The connective `or`.
    LogicOr(()),
    /// What stood between `(` and its `)`.
    Group(Expression),
}

/// The mathematical model of a `Token`.
pub enum TokenView {
    Word(Seq<char>),
    Pair(Seq<char>, Seq<char>),
    Id(nat),
    Quote(Seq<char>),
    LogicAnd,
    LogicNot,
    LogicOr,
    Group(Seq<TokenView>),
}

/// The models of a sequence of tokens, in order.
pub open spec fn token_views(tokens: Seq<Token>) -> Seq<TokenView>
    decreases tokens,
{
    if tokens.len() == 0 {
        Seq::empty()
    } else {
        token_views(tokens.drop_last()).push(tokens.last().view())
    }
}

impl View for Token {
    type V = TokenView;

    open spec fn view(&self) -> TokenView
        decreases self,
    {
        match self {
            Token::Word(text) => TokenView::Word(text@),
            Token::Pair(key, value) => TokenView::Pair(key@, value@),
            Token::Id(n) => TokenView::Id(*n as nat),
            Token::Quote(text) => TokenView::Quote(text@),
            Token::LogicAnd(_) => TokenView::LogicAnd,
            Token::LogicNot(_) => TokenView::LogicNot,
            Token::LogicOr(_) => TokenView::LogicOr,
            Token::Group(inside) => TokenView::Group(token_views(inside@)),
        }
    }
}

/// The tokens of a sequence have their models at the same indices.
pub proof fn token_views_index(tokens: Seq<Token>)
    ensures
        token_views(tokens).len() == tokens.len(),
        forall|i: int| 0 <= i < tokens.len() ==> (#[trigger] token_views(tokens)[i]) == tokens[i]@,
    decreases tokens.len(),
{
    if tokens.len() > 0 {
        token_views_index(tokens.drop_last());
        assert(token_views(tokens) == token_views(tokens.drop_last()).push(tokens.last().view()));
    }
}

/// The characters that a match spans.
pub open spec fn text(s: Seq<char>, m: MatchView) -> Seq<char> {
    s.subrange(m.start, m.end)
}

/// What a digit counts.
pub open spec fn digit_value(c: char) -> nat {
    (c as int - '0' as int) as nat
}

/// The number that decimal digits write.
pub open spec fn value(digits: Seq<char>) -> nat
    decreases digits.len(),
{
    if digits.len() == 0 {
        0
    } else {
        10 * value(digits.drop_last()) + digit_value(digits.last())
    }
}

/// Whether every character of a text is a decimal digit.
pub open spec fn all_digits(t: Seq<char>) -> bool {
    forall|i: int| 0 <= i < t.len() ==> digit(#[trigger] t[i])
}

/// A text without the `+` that may stand at its start.
pub open spec fn unsigned(t: Seq<char>) -> Seq<char> {
    if t.len() > 0 && t[0] == '+' {
        t.skip(1)
    } else {
        t
    }
}

/// The number that a text writes, if it writes one that a `usize` holds:
/// decimal digits, at least one, with or without one `+` before them.
pub open spec fn number(t: Seq<char>) -> Option<nat> {
    let digits = unsigned(t);
    if digits.len() > 0 && all_digits(digits) && value(digits) <= usize::MAX {
        Some(value(digits))
    } else {
        None
    }
}

/// A text without the `#` characters at its start.
pub open spec fn unhashed(t: Seq<char>) -> Seq<char> {
    t.skip(run_end(t, 0, Class::Hash))
}

/// The token for one match, if the match gives one.
///
/// A word, a quote and the connectives give their token. An id gives its
/// number, or a word where the text behind `#` writes no number. A pair
/// gives its token where it holds a key and a value, and nothing where it
/// does not. A group gives the tokens of the expression inside it, and an
/// empty group where there is none. An expression, a key and a value
/// standing alone give nothing.
pub open spec fn token(s: Seq<char>, m: MatchView) -> Option<TokenView>
    decreases m, 0nat,
{
    match m.rule {
        Rule::Word => Some(TokenView::Word(text(s, m))),
        Rule::Quote => Some(TokenView::Quote(s.subrange(m.start + 1, m.end - 1))),
        Rule::LogicAnd => Some(TokenView::LogicAnd),
        Rule::LogicNot => Some(TokenView::LogicNot),
        Rule::LogicOr => Some(TokenView::LogicOr),
        Rule::Id => match number(unhashed(text(s, m))) {
            Some(n) => Some(TokenView::Id(n)),
            None => Some(TokenView::Word(text(s, m))),
        },
        Rule::Pair => if m.inner.len() >= 2 {
            Some(TokenView::Pair(text(s, m.inner[0]), text(s, m.inner[1])))
        } else {
            None
        },
        Rule::Group => if m.inner.len() >= 1 && m.inner[0].rule == Rule::Expression {
            Some(TokenView::Group(tokens(s, m.inner[0].inner)))
        } else {
            Some(TokenView::Group(Seq::empty()))
        },
        Rule::Expression | Rule::Key | Rule::Value => None,
    }
}

/// The tokens for a sequence of matches, in the order of the matches.
pub open spec fn tokens(s: Seq<char>, matches: Seq<MatchView>) -> Seq<TokenView>
    decreases matches, 1nat,
{
    if matches.len() == 0 {
        Seq::empty()
    } else {
        match token(s, matches.last()) {
            Some(t) => tokens(s, matches.drop_last()).push(t),
            None => tokens(s, matches.drop_last()),
        }
    }
}

/// The terms of a query: the matches inside the expression that spans it,
/// or the lines that tell why the text is no query.
pub open spec fn parsed(s: Seq<char>) -> Result<Seq<MatchView>, Seq<Seq<char>>> {
    match matched(s) {
        Ok(found) => if found.len() > 0 {
            Ok(found[0].inner)
        } else {
            Ok(Seq::empty())
        },
        Err(e) => Err(diagnostic(e)),
    }
}

/// What `tokenise` gives for a text: the tokens of its terms, or the lines
/// that tell why the text is no query.
pub open spec fn tokenised(s: Seq<char>) -> Result<Seq<TokenView>, Seq<Seq<char>>> {
    match parsed(s) {
        Ok(terms) => Ok(tokens(s, terms)),
        Err(lines) => Err(lines),
    }
}

/// A prefix of digits writes no more than the whole.
proof fn value_grows(digits: Seq<char>, k: int)
    requires
        0 <= k <= digits.len(),
    ensures
        value(digits.take(k)) <= value(digits),
    decreases digits.len() - k,
{
    if k < digits.len() {
        value_grows(digits, k + 1);
        assert(digits.take(k + 1).drop_last() =~= digits.take(k));
    } else {
        assert(digits.take(k) =~= digits);
    }
}

/// Reads the number that `word[from..]` writes.
pub fn parse_number(word: &Vec<char>, from: usize) -> (r: Option<usize>)
    requires
        from <= word.len(),
    ensures
        match r {
            Some(n) => number(word@.skip(from as int)) == Some(n as nat),
            None => number(word@.skip(from as int)) is None,
        },
{
    let n = word.len();
    let mut i: usize = from;
    if i < n && word[i] == '+' {
        i += 1;
    }
    let start = i;
    let ghost digits = word@.subrange(start as int, n as int);
    proof {
        let t = word@.skip(from as int);
        if t.len() > 0 && t[0] == '+' {
            assert(t.skip(1) =~= digits);
        } else {
            assert(t =~= digits);
        }
        assert(unsigned(t) == digits);
    }
    if i == n {
        return None;
    }
    let mut sum: usize = 0;
    proof {
        assert(digits.take(0) =~= Seq::<char>::empty());
    }
    while i < n
        invariant
            start <= i <= n == word.len(),
            digits == word@.subrange(start as int, n as int),
            digits == unsigned(word@.skip(from as int)),
            forall|k: int| 0 <= k < i - start ==> digit(#[trigger] digits[k]),
            sum == value(digits.take(i - start)),
        decreases n - i,
    {
        let c = word[i];
        if !('0' <= c && c <= '9') {
            assert(!digit(digits[i - start]));
            return None;
        }
        let d: usize = (c as u32 - '0' as u32) as usize;
        proof {
            let k = i - start;
            assert(digits.take(k + 1).drop_last() =~= digits.take(k));
            assert(digits.take(k + 1).last() == c);
            assert(d == digit_value(c));
            assert(value(digits.take(k + 1)) == 10 * sum + d);
            value_grows(digits, k + 1);
        }
        if sum > (usize::MAX - d) / 10 {
            assert(10 * sum + d > usize::MAX);
            return None;
        }
        sum = sum * 10 + d;
        i += 1;
    }
    proof {
        assert(digits.take(n - start) =~= digits);
    }
    Some(sum)
}

/// The text that a match spans.
pub fn ex(chars: &Vec<char>, tok: &Match) -> (out: String)
    requires
        tok.start <= tok.end <= chars.len(),
    ensures
        out@ == text(chars@, tok@),
{
    string_of(chars, tok.start, tok.end)
}

/// The text inside a quote: what the match spans without the delimiters at
/// its two ends.
pub fn quote_ex(chars: &Vec<char>, tok: &Match) -> (out: String)
    requires
        tok.start + 2 <= tok.end <= chars.len(),
    ensures
        out@ == chars@.subrange(tok.start + 1, tok.end - 1),
{
    string_of(chars, tok.start + 1, tok.end - 1)
}

/// The key and the value of a pair: the texts of the first two matches
/// inside it, or nothing where it holds fewer than two.
pub fn pair_ex(chars: &Vec<char>, tok: &Match) -> (out: Option<(String, String)>)
    requires
        within(tok@, chars.len() as int),
    ensures
        match out {
            Some((key, value)) => tok@.inner.len() >= 2 && key@ == text(chars@, tok@.inner[0])
                && value@ == text(chars@, tok@.inner[1]),
            None => tok@.inner.len() < 2,
        },
{
    proof {
        views_index(tok.inner@);
    }
    if tok.inner.len() < 2 {
        return None;
    }
    proof {
        assert(within(tok@.inner[0], chars.len() as int));
        assert(within(tok@.inner[1], chars.len() as int));
    }
    let key = ex(chars, &tok.inner[0]);
    let value = ex(chars, &tok.inner[1]);
    Some((key, value))
}

/// The tokens inside a group: those of the expression that is the first
/// match inside it, or none where the group holds no expression.
pub fn group_ex(chars: &Vec<char>, tok: &Match) -> (out: Expression)
    requires
        within(tok@, chars.len() as int),
    ensures
        token_views(out@) == (if tok@.inner.len() >= 1 && tok@.inner[0].rule == Rule::Expression {
            tokens(chars@, tok@.inner[0].inner)
        } else {
            Seq::empty()
        }),
    decreases tok, 0nat,
{
    proof {
        views_index(tok.inner@);
    }
    if tok.inner.len() == 0 {
        return Vec::new();
    }
    let first = &tok.inner[0];
    match first.rule {
        Rule::Expression => {
            proof {
                assert(within(tok@.inner[0], chars.len() as int));
                assert(tok@.inner[0] == first@);
                views_index(first.inner@);
                assert forall|i: int| 0 <= i < first@.inner.len() implies within(
                    #[trigger] first@.inner[i],
                    chars.len() as int,
                ) by {}
            }
            expression(chars, &first.inner)
        },
        _ => Vec::new(),
    }
}

/// The token for an id: its number, or a word with the text of the match
/// where the characters behind `#` write no number.
fn id_ex(chars: &Vec<char>, tok: &Match) -> (out: Token)
    requires
        tok.start <= tok.end <= chars.len(),
        tok.rule == Rule::Id,
    ensures
        Some(out@) == token(chars@, tok@),
{
    let mut word: Vec<char> = Vec::new();
    let mut i: usize = tok.start;
    while i < tok.end
        invariant
            tok.start <= i <= tok.end <= chars.len(),
            word@ == chars@.subrange(tok.start as int, i as int),
        decreases tok.end - i,
    {
        word.push(chars[i]);
        i += 1;
    }
    let digits_from = skip_run(&word, 0, Class::Hash);
    match parse_number(&word, digits_from) {
        Some(n) => Token::Id(n),
        None => Token::Word(ex(chars, tok)),
    }
}

/// The tokens for a sequence of matches, in the order of the matches.
pub fn expression(chars: &Vec<char>, pairs: &Vec<Match>) -> (out: Expression)
    requires
        all_within(views(pairs@), chars.len() as int),
    ensures
        token_views(out@) == tokens(chars@, views(pairs@)),
    decreases pairs, 1nat,
{
    let mut out: Vec<Token> = Vec::new();
    let mut i: usize = 0;
    proof {
        views_index(pairs@);
        assert(pairs@.take(0) =~= Seq::<Match>::empty());
    }
    while i < pairs.len()
        invariant
            i <= pairs.len(),
            all_within(views(pairs@), chars.len() as int),
            forall|k: int| 0 <= k < pairs.len() ==> (#[trigger] views(pairs@)[k]) == pairs[k]@,
            views(pairs@).len() == pairs.len(),
            token_views(out@) == tokens(chars@, views(pairs@.take(i as int))),
        decreases pairs.len() - i,
    {
        let tok = &pairs[i];
        proof {
            let grown = pairs@.take(i + 1);
            assert(grown.drop_last() =~= pairs@.take(i as int));
            assert(grown.last() == *tok);
            assert(views(grown) == views(pairs@.take(i as int)).push(tok@));
            assert(views(grown).drop_last() =~= views(pairs@.take(i as int)));
            assert(within(views(pairs@)[i as int], chars.len() as int));
        }
        let ghost before = out@;
        let found: Option<Token> = match tok.rule {
            Rule::Word => Some(Token::Word(ex(chars, tok))),
            Rule::Quote => Some(Token::Quote(quote_ex(chars, tok))),
            Rule::LogicAnd => Some(Token::LogicAnd(())),
            Rule::LogicNot => Some(Token::LogicNot(())),
            Rule::LogicOr => Some(Token::LogicOr(())),
            Rule::Id => Some(id_ex(chars, tok)),
            Rule::Pair => match pair_ex(chars, tok) {
                None => None,
                Some(p) => Some(Token::Pair(p.0, p.1)),
            },
            Rule::Group => Some(Token::Group(group_ex(chars, tok))),
            _ => None,
        };
        match found {
            Some(t) => {
                proof {
                    assert(Some(t@) == token(chars@, tok@));
                    assert(out@.push(t).drop_last() =~= out@);
                }
                out.push(t);
            },
            None => {
                proof {
                    assert(token(chars@, tok@) is None);
                }
            },
        }
        i += 1;
    }
    proof {
        assert(pairs@.take(pairs.len() as int) =~= pairs@);
    }
    out
}

/// The terms of a query, or the lines that tell why the text is no query.
pub fn parse(chars: &Vec<char>) -> (r: Result<Vec<Match>, Vec<String>>)
    ensures
        match r {
            Ok(terms) => parsed(chars@) == Ok::<_, Seq<Seq<char>>>(views(terms@)) && all_within(
                views(terms@),
                chars.len() as int,
            ),
            Err(lines) => parsed(chars@) == Err::<Seq<MatchView>, _>(texts(lines@)) && lines.len()
                > 0,
        },
{
    match search(chars) {
        Err(e) => Err(e.lines()),
        Ok(mut found) => {
            proof {
                views_index(found@);
            }
            match found.pop() {
                None => Ok(Vec::new()),
                Some(top) => {
                    proof {
                        assert(within(top@, chars.len() as int));
                        views_index(top.inner@);
                    }
                    Ok(top.inner)
                },
            }
        },
    }
}

/// Reads a normalised query: its tokens from left to right, a group
/// holding the tokens inside it, or the lines that tell why the text is no
/// query. A failed parse gives at least one line and no tokens. Groups may
/// stand `MAX_DEPTH` deep inside one another; a group inside that many is a
/// failure like any other.
pub fn tokenise(input: String) -> (r: Result<Expression, Vec<String>>)
    ensures
        match r {
            Ok(tokens) => tokenised(input@) == Ok::<_, Seq<Seq<char>>>(token_views(tokens@)),
            Err(lines) => tokenised(input@) == Err::<Seq<TokenView>, _>(texts(lines@))
                && lines.len() > 0,
        },
{
    let chars = chars_of(input.as_str());
    match parse(&chars) {
        Err(lines) => Err(lines),
        Ok(top) => Ok(expression(&chars, &top)),
    }
}

} // verus!

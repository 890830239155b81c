//! The grammar of search queries: which stretches of the input are which
//! kind of term, and how groups nest.

use vstd::prelude::*;
use crate::parse::text::{run_end, run_end_bounds, skip_run, Class};

verus! {

/// The kinds of match that the grammar produces.
#[derive(Clone, Copy, Debug, PartialEq, Eq, Structural)]
pub enum Rule {
    Expression,
    Group,
    Quote,
    Pair,
    Key,
    Value,
    Id,
    LogicAnd,
    LogicOr,
    LogicNot,
    Word,
}

/// A stretch of the input that a rule of the grammar matched, with the
/// matches inside it. Positions count characters; `end` is exclusive.
#[derive(Debug, PartialEq, Eq)]
pub struct Match {
    pub rule: Rule,
    pub start: usize,
    pub end: usize,
    pub inner: Vec<Match>,
}

/// The mathematical model of a `Match`.
pub struct MatchView {
    pub rule: Rule,
    pub start: int,
    pub end: int,
    pub inner: Seq<MatchView>,
}

/// The models of a sequence of matches, in order.
pub open spec fn views(matches: Seq<Match>) -> Seq<MatchView>
    decreases matches,
{
    if matches.len() == 0 {
        Seq::empty()
    } else {
        views(matches.drop_last()).push(matches.last().view())
    }
}

impl View for Match {
    type V = MatchView;

    open spec fn view(&self) -> MatchView
        decreases self,
    {
        MatchView {
            rule: self.rule,
            start: self.start as int,
            end: self.end as int,
            inner: views(self.inner@),
        }
    }
}

/// How many groups may stand inside one another.
pub const MAX_DEPTH: usize = 64;

/// Why a text is no search query. Positions count characters.
#[derive(Clone, Copy, Debug, PartialEq, Eq, Structural)]
pub enum ParseError {
    /// The text ends, at `at`, inside the quote that opens at `opened`.
    UnclosedQuote { opened: usize, at: usize },
    /// The text ends, at `at`, inside the group that opens at `opened`.
    UnclosedGroup { opened: usize, at: usize },
    /// The `)` at `at` closes no group.
    UnexpectedClose { at: usize },
    /// The `(` at `at` stands inside `MAX_DEPTH` groups already.
    TooDeep { at: usize },
}

/// What reading a stretch of the text gives: the matches found and the
/// position after them, or the reason why the text is no query.
pub type Read<T> = Result<(T, int), ParseError>;

/// The matches of a sequence have their models at the same indices.
pub proof fn views_index(matches: Seq<Match>)
    ensures
        views(matches).len() == matches.len(),
        forall|i: int| 0 <= i < matches.len() ==> (#[trigger] views(matches)[i]) == matches[i]@,
    decreases matches.len(),
{
    if matches.len() > 0 {
        views_index(matches.drop_last());
        assert(views(matches) == views(matches.drop_last()).push(matches.last().view()));
    }
}

/// A match without matches inside it.
pub open spec fn leaf(rule: Rule, start: int, end: int) -> MatchView {
    MatchView { rule, start, end, inner: Seq::empty() }
}

/// Whether the word that starts at `a` is a pair: a key of at least one
/// character, one `=`, and a value of at least one character that reaches
/// the end of the word, so that the word holds no second `=`.
pub open spec fn pair_at(s: Seq<char>, a: int) -> bool {
    let key_end = run_end(s, a, Class::Side);
    a < key_end && key_end + 1 < run_end(s, a, Class::Atom) && run_end(
        s,
        key_end + 1,
        Class::Side,
    ) == run_end(s, a, Class::Atom)
}

/// Whether the word that starts at `a` is an id: `#`, then at least one
/// digit, then the end of the word.
pub open spec fn id_at(s: Seq<char>, a: int) -> bool {
    0 <= a < s.len() && s[a] == '#' && a + 1 < run_end(s, a, Class::Atom) && run_end(
        s,
        a + 1,
        Class::Digit,
    ) == run_end(s, a, Class::Atom)
}

/// The match for the word that starts at `a`. A word is a maximal run of
/// characters other than the space, `(`, `)` and `"`; it is a pair, an id,
/// one of the three connectives or, failing all of these, a plain word.
pub open spec fn atom(s: Seq<char>, a: int) -> MatchView {
    let end = run_end(s, a, Class::Atom);
    let word = s.subrange(a, end);
    if pair_at(s, a) {
        let key_end = run_end(s, a, Class::Side);
        MatchView {
            rule: Rule::Pair,
            start: a,
            end,
            inner: seq![leaf(Rule::Key, a, key_end), leaf(Rule::Value, key_end + 1, end)],
        }
    } else if id_at(s, a) {
        leaf(Rule::Id, a, end)
    } else if word == seq!['a', 'n', 'd'] {
        leaf(Rule::LogicAnd, a, end)
    } else if word == seq!['o', 'r'] {
        leaf(Rule::LogicOr, a, end)
    } else if word == seq!['n', 'o', 't'] {
        leaf(Rule::LogicNot, a, end)
    } else {
        leaf(Rule::Word, a, end)
    }
}

/// The expression round the terms of a group or of the whole query. It
/// spans from the first term to the last; where there is no term there is
/// no expression either.
pub open spec fn enclosed(terms: Seq<MatchView>) -> Seq<MatchView> {
    if terms.len() == 0 {
        Seq::empty()
    } else {
        seq![
            MatchView {
                rule: Rule::Expression,
                start: terms.first().start,
                end: terms.last().end,
                inner: terms,
            },
        ]
    }
}

/// `rest` with the matches `before` in front of what it found.
pub open spec fn prepend(before: Seq<MatchView>, rest: Read<Seq<MatchView>>) -> Read<
    Seq<MatchView>,
> {
    match rest {
        Ok((found, end)) => Ok((before + found, end)),
        Err(e) => Err(e),
    }
}

/// The terms from `i` on, inside `depth` groups: any number of terms with
/// any number of spaces before each, up to the end of the text or to the
/// first `)` that closes no group opened since `i`.
///
/// A term that is read ends behind its start, so the branch for one that
/// does not is never taken: it stands here to show that the reading ends.
pub open spec fn terms(s: Seq<char>, i: int, depth: nat) -> Read<Seq<MatchView>>
    decreases s.len() - i, 1nat,
{
    let j = run_end(s, i, Class::Blank);
    if j < i || j >= s.len() || s[j] == ')' {
        Ok((Seq::empty(), j))
    } else {
        match term(s, j, depth) {
            Err(e) => Err(e),
            Ok((found, next)) => if j < next <= s.len() {
                prepend(seq![found], terms(s, next, depth))
            } else {
                Ok((seq![found], next))
            },
        }
    }
}

/// The term that starts at `j`, inside `depth` groups: a group from `(` to
/// its `)`, a quote from `"` to the next `"`, or else a word. A group that
/// would stand inside `MAX_DEPTH` groups, a group without its `)` and a
/// quote without its second `"` are failures.
pub open spec fn term(s: Seq<char>, j: int, depth: nat) -> Read<MatchView>
    decreases s.len() - j, 0nat,
{
    if j < 0 || j >= s.len() {
        Ok((leaf(Rule::Word, j, j), j))
    } else if s[j] == '(' {
        if depth >= MAX_DEPTH {
            Err(ParseError::TooDeep { at: j as usize })
        } else {
            match terms(s, j + 1, depth + 1) {
                Err(e) => Err(e),
                Ok((inside, close)) => if close < s.len() {
                    Ok(
                        (
                            MatchView {
                                rule: Rule::Group,
                                start: j,
                                end: close + 1,
                                inner: enclosed(inside),
                            },
                            close + 1,
                        ),
                    )
                } else {
                    Err(ParseError::UnclosedGroup { opened: j as usize, at: close as usize })
                },
            }
        }
    } else if s[j] == '"' {
        let close = run_end(s, j + 1, Class::Quoted);
        if close < s.len() {
            Ok((leaf(Rule::Quote, j, close + 1), close + 1))
        } else {
            Err(ParseError::UnclosedQuote { opened: j as usize, at: close as usize })
        }
    } else {
        Ok((atom(s, j), run_end(s, j, Class::Atom)))
    }
}

/// The matches of a whole text: the expression round its terms, if it has
/// any. A `)` that closes no group makes the text no query.
pub open spec fn matched(s: Seq<char>) -> Result<Seq<MatchView>, ParseError> {
    match terms(s, 0, 0) {
        Err(e) => Err(e),
        Ok((found, end)) => if end < s.len() {
            Err(ParseError::UnexpectedClose { at: end as usize })
        } else {
            Ok(enclosed(found))
        },
    }
}

/// Whether a match and all matches inside it lie within a text of `len`
/// characters, a quote spanning at least its two delimiters.
pub open spec fn within(m: MatchView, len: int) -> bool
    decreases m,
{
    &&& 0 <= m.start <= m.end <= len
    &&& (m.rule == Rule::Quote ==> m.start + 2 <= m.end)
    &&& forall|i: int| 0 <= i < m.inner.len() ==> within(#[trigger] m.inner[i], len)
}

/// Whether all of `matches` lie within a text of `len` characters.
pub open spec fn all_within(matches: Seq<MatchView>, len: int) -> bool {
    forall|i: int| 0 <= i < matches.len() ==> within(#[trigger] matches[i], len)
}

/// Whether `matches` are terms read between `from` and `to`: within the
/// text, the first not before `from` and the last not after `to`.
pub open spec fn between(matches: Seq<MatchView>, from: int, to: int, len: int) -> bool {
    &&& all_within(matches, len)
    &&& matches.len() > 0 ==> from <= matches.first().start <= matches.last().end <= to
}

fn make_leaf(rule: Rule, start: usize, end: usize) -> (m: Match)
    ensures
        m@ == leaf(rule, start as int, end as int),
{
    Match { rule, start, end, inner: Vec::new() }
}

/// Whether the word `chars[from..to]` is `word`.
fn is_word(chars: &Vec<char>, from: usize, to: usize, word: &Vec<char>) -> (b: bool)
    requires
        from <= to <= chars.len(),
    ensures
        b == (chars@.subrange(from as int, to as int) == word@),
{
    if to - from != word.len() {
        return false;
    }
    let mut i: usize = 0;
    while i < word.len()
        invariant
            from <= to <= chars.len(),
            to - from == word.len(),
            i <= word.len(),
            forall|k: int| 0 <= k < i ==> chars[from + k] == word[k],
        decreases word.len() - i,
    {
        if chars[from + i] != word[i] {
            assert(chars@.subrange(from as int, to as int)[i as int] != word@[i as int]);
            return false;
        }
        i += 1;
    }
    assert(chars@.subrange(from as int, to as int) =~= word@);
    true
}

/// Reads the word that starts at `at`.
fn parse_atom(chars: &Vec<char>, at: usize) -> (r: (Match, usize))
    requires
        at < chars.len(),
    ensures
        r.0@ == atom(chars@, at as int),
        r.1 == run_end(chars@, at as int, Class::Atom),
        at <= r.1 <= chars.len(),
        within(r.0@, chars.len() as int),
        r.0.start == at,
        r.0.end == r.1,
{
    let n = chars.len();
    let end = skip_run(chars, at, Class::Atom);
    let key_end = skip_run(chars, at, Class::Side);
    proof {
        run_end_bounds(chars@, at as int, Class::Atom);
        run_end_bounds(chars@, at as int, Class::Side);
        if key_end > end {
            assert(crate::parse::text::member(Class::Side, chars@[end as int]));
        }
    }
    if at < key_end && key_end < end && end - key_end > 1 {
        let value_end = skip_run(chars, key_end + 1, Class::Side);
        if value_end == end {
            let mut inner: Vec<Match> = Vec::new();
            inner.push(make_leaf(Rule::Key, at, key_end));
            inner.push(make_leaf(Rule::Value, key_end + 1, end));
            let m = Match { rule: Rule::Pair, start: at, end, inner };
            proof {
                views_index(m.inner@);
                assert(m@.inner =~= seq![
                    leaf(Rule::Key, at as int, key_end as int),
                    leaf(Rule::Value, key_end + 1, end as int),
                ]);
                assert(within(m@.inner[0], n as int));
                assert(within(m@.inner[1], n as int));
            }
            return (m, end);
        }
    }
    if chars[at] == '#' && end - at > 1 {
        let digits_end = skip_run(chars, at + 1, Class::Digit);
        if digits_end == end {
            return (make_leaf(Rule::Id, at, end), end);
        }
    }
    let rule = if is_word(chars, at, end, &vec!['a', 'n', 'd']) {
        Rule::LogicAnd
    } else if is_word(chars, at, end, &vec!['o', 'r']) {
        Rule::LogicOr
    } else if is_word(chars, at, end, &vec!['n', 'o', 't']) {
        Rule::LogicNot
    } else {
        Rule::Word
    };
    (make_leaf(rule, at, end), end)
}

/// The expression round `terms`, if there are any.
fn enclose(terms: Vec<Match>) -> (r: Vec<Match>)
    requires
        terms.len() > 0 ==> terms[0].start <= terms[terms.len() - 1].end,
    ensures
        views(r@) == enclosed(views(terms@)),
{
    proof {
        views_index(terms@);
    }
    if terms.len() == 0 {
        terms
    } else {
        let start = terms[0].start;
        let end = terms[terms.len() - 1].end;
        let mut r: Vec<Match> = Vec::new();
        r.push(Match { rule: Rule::Expression, start, end, inner: terms });
        proof {
            views_index(r@);
            assert(views(r@) =~= enclosed(views(terms@)));
        }
        r
    }
}

/// Reads the terms from `from` on, inside `depth` groups.
fn parse_terms(chars: &Vec<char>, from: usize, depth: usize) -> (r: Result<
    (Vec<Match>, usize),
    ParseError,
>)
    requires
        from <= chars.len(),
        depth <= MAX_DEPTH,
    ensures
        match r {
            Ok((found, end)) => {
                &&& terms(chars@, from as int, depth as nat) == Ok::<_, ParseError>(
                    (views(found@), end as int),
                )
                &&& from <= end <= chars.len()
                &&& end < chars.len() ==> chars[end as int] == ')'
                &&& between(views(found@), from as int, end as int, chars.len() as int)
            },
            Err(e) => terms(chars@, from as int, depth as nat) == Err::<(Seq<MatchView>, int), _>(
                e,
            ),
        },
    decreases chars.len() - from, 1nat,
{
    let n = chars.len();
    let mut found: Vec<Match> = Vec::new();
    let mut i: usize = from;
    proof {
        assert(Seq::<MatchView>::empty() + Seq::<MatchView>::empty() =~= Seq::<MatchView>::empty());
        match terms(chars@, from as int, depth as nat) {
            Ok((ms, end)) => {
                assert(Seq::<MatchView>::empty() + ms =~= ms);
            },
            Err(e) => {},
        }
    }
    loop
        invariant
            n == chars.len(),
            from <= i <= n,
            depth <= MAX_DEPTH,
            terms(chars@, from as int, depth as nat) == prepend(
                views(found@),
                terms(chars@, i as int, depth as nat),
            ),
            between(views(found@), from as int, i as int, n as int),
        decreases n - i,
    {
        let j = skip_run(chars, i, Class::Blank);
        proof {
            run_end_bounds(chars@, i as int, Class::Blank);
        }
        if j >= n || chars[j] == ')' {
            proof {
                assert(views(found@) + Seq::<MatchView>::empty() =~= views(found@));
            }
            return Ok((found, j));
        }
        match parse_term(chars, j, depth) {
            Err(e) => {
                return Err(e);
            },
            Ok((m, next)) => {
                proof {
                    let before = views(found@);
                    let grown = found@.push(m);
                    assert(grown.drop_last() =~= found@);
                    assert(views(grown) == before.push(m@));
                    match terms(chars@, next as int, depth as nat) {
                        Ok((ms, end)) => {
                            assert(before + (seq![m@] + ms) =~= before.push(m@) + ms);
                        },
                        Err(e) => {},
                    }
                    views_index(found@);
                    views_index(grown);
                }
                found.push(m);
                i = next;
            },
        }
    }
}

/// Reads the term that starts at `at`, inside `depth` groups.
fn parse_term(chars: &Vec<char>, at: usize, depth: usize) -> (r: Result<(Match, usize), ParseError>)
    requires
        at < chars.len(),
        depth <= MAX_DEPTH,
        chars[at as int] != ' ',
        chars[at as int] != ')',
    ensures
        match r {
            Ok((m, next)) => {
                &&& term(chars@, at as int, depth as nat) == Ok::<_, ParseError>((m@, next as int))
                &&& at < next <= chars.len()
                &&& within(m@, chars.len() as int)
                &&& m.start == at
                &&& m.end == next
            },
            Err(e) => term(chars@, at as int, depth as nat) == Err::<(MatchView, int), _>(e),
        },
    decreases chars.len() - at, 0nat,
{
    let n = chars.len();
    let c = chars[at];
    if c == '(' {
        if depth >= MAX_DEPTH {
            return Err(ParseError::TooDeep { at });
        }
        match parse_terms(chars, at + 1, depth + 1) {
            Err(e) => Err(e),
            Ok((inside, close)) => {
                if close < n {
                    proof {
                        views_index(inside@);
                    }
                    let inner = enclose(inside);
                    let m = Match { rule: Rule::Group, start: at, end: close + 1, inner };
                    proof {
                        let terms = views(inside@);
                        if terms.len() > 0 {
                            assert(within(terms.first(), n as int));
                            assert(within(terms.last(), n as int));
                            assert(within(m@.inner[0], n as int));
                        }
                        assert(within(m@, n as int));
                    }
                    Ok((m, close + 1))
                } else {
                    Err(ParseError::UnclosedGroup { opened: at, at: close })
                }
            },
        }
    } else if c == '"' {
        let close = skip_run(chars, at + 1, Class::Quoted);
        if close < n {
            let m = make_leaf(Rule::Quote, at, close + 1);
            assert(within(m@, n as int));
            Ok((m, close + 1))
        } else {
            Err(ParseError::UnclosedQuote { opened: at, at: close })
        }
    } else {
        let (m, end) = parse_atom(chars, at);
        proof {
            run_end_bounds(chars@, at as int, Class::Atom);
        }
        Ok((m, end))
    }
}

/// Reads a whole text as a search query: the expression round its terms,
/// or nothing for a text without terms.
pub fn search(chars: &Vec<char>) -> (r: Result<Vec<Match>, ParseError>)
    ensures
        match r {
            Ok(found) => matched(chars@) == Ok::<_, ParseError>(views(found@)) && all_within(
                views(found@),
                chars.len() as int,
            ),
            Err(e) => matched(chars@) == Err::<Seq<MatchView>, _>(e),
        },
{
    match parse_terms(chars, 0, 0) {
        Err(e) => Err(e),
        Ok((found, end)) => {
            if end < chars.len() {
                Err(ParseError::UnexpectedClose { at: end })
            } else {
                proof {
                    views_index(found@);
                }
                Ok(enclose(found))
            }
        },
    }
}

} // verus!

//! Queries put together: a query between brackets, and two queries side by
//! side.

use vstd::prelude::*;
use crate::parse::grammar::{enclosed, term, terms, MatchView, ParseError, MAX_DEPTH};
use crate::parse::nesting::{depth, depth_concat, depth_of, one_depth, one_token, tokens_concat};
use crate::parse::search::{token, tokenised, tokens, TokenView};
use crate::parse::text::{member, run_end, run_end_bounds, run_end_prefix, run_end_shift, Class};
use crate::parse::written::{
    atom_embedded,
    term_readable,
    terms_after_blank,
    terms_readable,
    tokens_are_readable,
};

verus! {

/// Reading the terms goes on behind a stretch of spaces as at its start.
proof fn terms_skip_blanks(s: Seq<char>, a: int, b: int, open: nat)
    requires
        0 <= a <= b <= s.len(),
        forall|k: int| a <= k < b ==> (#[trigger] s[k]) == ' ',
    ensures
        terms(s, a, open) == terms(s, b, open),
    decreases b - a,
{
    if a < b {
        assert(s[a] == ' ');
        terms_after_blank(s, a, open);
        terms_skip_blanks(s, a + 1, b, open);
    }
}

/// A text is a query exactly where its terms can be read to its end, and
/// the tokens of the query are those of the terms.
proof fn tokenised_is_terms(s: Seq<char>)
    ensures
        match tokenised(s) {
            Ok(found) => terms(s, 0, 0) matches Ok((ms, end)) && end >= s.len() && tokens(s, ms)
                == found,
            Err(_) => terms(s, 0, 0) matches Ok((ms, end)) ==> end < s.len(),
        },
{
    match terms(s, 0, 0) {
        Err(_) => {},
        Ok((ms, end)) => {
            if end >= s.len() {
                if ms.len() > 0 {
                    assert(enclosed(ms)[0].inner == ms);
                } else {
                    assert(tokens(s, ms) =~= Seq::<TokenView>::empty());
                }
            }
        },
    }
}

/// The terms of a text that stands between two others are read there as
/// they are read in the text alone, `above` groups deeper. Where the
/// reading stops inside the text, at a `)`, it stops there; where it comes
/// to the end of the text, it goes on with what follows. What follows must
/// not prolong a word, and the tokens must not nest too deep.
proof fn terms_embedded(
    pre: Seq<char>,
    s: Seq<char>,
    post: Seq<char>,
    i: int,
    open: nat,
    above: nat,
)
    requires
        0 <= i <= s.len(),
        post.len() == 0 || !member(Class::Atom, post[0]),
        terms(s, i, open) matches Ok((ms, end)) && above + depth(tokens(s, ms)) <= MAX_DEPTH,
    ensures
        ({
            let whole = pre + s + post;
            let p = pre.len() as int;
            let (ms, end) = terms(s, i, open)->Ok_0;
            if end < s.len() {
                terms(whole, p + i, above) matches Ok((found, stop)) && stop == p + end && tokens(
                    whole,
                    found,
                ) == tokens(s, ms)
            } else {
                match terms(whole, p + s.len(), above) {
                    Ok((rest, stop)) => terms(whole, p + i, above) matches Ok((found, at)) && at
                        == stop && tokens(whole, found) == tokens(s, ms) + tokens(whole, rest),
                    Err(e) => terms(whole, p + i, above) == Err::<(Seq<MatchView>, int), _>(e),
                }
            }
        }),
    decreases s.len() - i, 1nat,
{
    let whole = pre + s + post;
    let p = pre.len() as int;
    let n = s.len() as int;
    let (ms, end) = terms(s, i, open)->Ok_0;
    let j = run_end(s, i, Class::Blank);
    run_end_bounds(s, i, Class::Blank);
    assert forall|k: int| p + i <= k < p + j implies (#[trigger] whole[k]) == ' ' by {
        assert(whole[k] == s[k - p]);
        assert(member(Class::Blank, s[k - p]));
    }
    terms_skip_blanks(whole, p + i, p + j, above);
    if j >= n {
        assert(tokens(s, ms) =~= Seq::<TokenView>::empty());
        match terms(whole, p + n, above) {
            Ok((rest, stop)) => {
                assert(tokens(s, ms) + tokens(whole, rest) =~= tokens(whole, rest));
            },
            Err(_) => {},
        }
    } else if s[j] == ')' {
        assert(whole[p + j] == ')');
        assert(run_end(whole, p + j, Class::Blank) == p + j);
        assert(tokens(s, ms) =~= Seq::<TokenView>::empty());
        assert(tokens(whole, Seq::<MatchView>::empty()) =~= Seq::<TokenView>::empty());
    } else {
        term_readable(s, j, open);
        let (first, next) = term(s, j, open)->Ok_0;
        let (others, _end) = terms(s, next, open)->Ok_0;
        let t = token(s, first)->0;
        assert(ms == seq![first] + others);
        tokens_concat(s, seq![first], others);
        one_token(s, first);
        depth_concat(seq![t], tokens(s, others));
        one_depth(t);
        term_embedded(pre, s, post, j, open, above);
        terms_embedded(pre, s, post, next, open, above);
        let (m, _next) = term(whole, p + j, above)->Ok_0;
        one_token(whole, m);
        assert(whole[p + j] == s[j]);
        assert(run_end(whole, p + j, Class::Blank) == p + j);
        match terms(whole, p + next, above) {
            Err(_) => {},
            Ok((found, stop)) => {
                tokens_concat(whole, seq![m], found);
                if end >= n {
                    let (rest, _stop) = terms(whole, p + n, above)->Ok_0;
                    assert(seq![t] + (tokens(s, others) + tokens(whole, rest)) =~= (seq![t]
                        + tokens(s, others)) + tokens(whole, rest));
                }
            },
        }
    }
}

/// The term of a text that stands between two others is read there as it
/// is read in the text alone, `above` groups deeper, and gives the same
/// token.
proof fn term_embedded(
    pre: Seq<char>,
    s: Seq<char>,
    post: Seq<char>,
    j: int,
    open: nat,
    above: nat,
)
    requires
        0 <= j < s.len(),
        s[j] != ' ',
        s[j] != ')',
        post.len() == 0 || !member(Class::Atom, post[0]),
        term(s, j, open) matches Ok((m, next)) && (token(s, m) matches Some(t) && above + depth_of(
            t,
        ) <= MAX_DEPTH),
    ensures
        ({
            let whole = pre + s + post;
            let p = pre.len() as int;
            let (m, next) = term(s, j, open)->Ok_0;
            term(whole, p + j, above) matches Ok((found, stop)) && stop == p + next && token(
                whole,
                found,
            ) == token(s, m)
        }),
    decreases s.len() - j, 0nat,
{
    let whole = pre + s + post;
    let p = pre.len() as int;
    let n = s.len() as int;
    assert(whole[p + j] == s[j]);
    assert(whole =~= pre + (s + post));
    if s[j] == '(' {
        let (inside, close) = terms(s, j + 1, open + 1)->Ok_0;
        terms_readable(s, j + 1, open + 1);
        if inside.len() == 0 {
            assert(tokens(s, inside) =~= Seq::<TokenView>::empty());
        } else {
            assert(enclosed(inside)[0].inner == inside);
        }
        terms_embedded(pre, s, post, j + 1, open + 1, above + 1);
        let (found, stop) = terms(whole, p + j + 1, above + 1)->Ok_0;
        assert(whole[p + close] == s[close]);
        if found.len() == 0 {
            assert(tokens(whole, found) =~= Seq::<TokenView>::empty());
        } else {
            assert(enclosed(found)[0].inner == found);
        }
    } else if s[j] == '"' {
        let close = run_end(s, j + 1, Class::Quoted);
        run_end_bounds(s, j + 1, Class::Quoted);
        run_end_prefix(s, post, j + 1, Class::Quoted);
        run_end_shift(pre, s + post, j + 1, Class::Quoted);
        assert(whole.subrange(p + j + 1, p + close) =~= s.subrange(j + 1, close));
    } else {
        let end = run_end(s, j, Class::Atom);
        run_end_bounds(s, j, Class::Atom);
        let x = s.subrange(j, end);
        assert(member(Class::Atom, s[j]));
        assert forall|k: int| 0 <= k < x.len() implies member(Class::Atom, #[trigger] x[k]) by {
            assert(x[k] == s[j + k]);
        }
        let before = s.take(j);
        let after = s.skip(end);
        assert(s =~= before + x + after);
        if after.len() > 0 {
            assert(after[0] == s[end]);
        }
        atom_embedded(before, x, after);
        let tail = after + post;
        if tail.len() > 0 {
            if after.len() > 0 {
                assert(tail[0] == after[0]);
            } else {
                assert(tail[0] == post[0]);
            }
        }
        assert(whole =~= (pre + before) + x + tail);
        atom_embedded(pre + before, x, tail);
    }
}

/// A query between `(` and `)` is a query of one group, which holds the
/// tokens of the query; given that the tokens nest less deep than
/// `MAX_DEPTH`, so that one more level is left.
pub proof fn bracketed_is_group(s: Seq<char>)
    requires
        tokenised(s) matches Ok(found) && depth(found) < MAX_DEPTH,
    ensures
        tokenised(seq!['('] + s + seq![')']) == Ok::<_, Seq<Seq<char>>>(
            seq![TokenView::Group(tokenised(s)->Ok_0)],
        ),
{
    let open = seq!['('];
    let close = seq![')'];
    let whole = open + s + close;
    let n = s.len() as int;
    let inside = tokenised(s)->Ok_0;
    tokenised_is_terms(s);
    terms_readable(s, 0, 0);
    assert(whole[0] == '(');
    assert(whole[n + 1] == ')');
    assert(whole.len() == n + 2);
    assert(run_end(whole, 0, Class::Blank) == 0);
    assert(run_end(whole, n + 1, Class::Blank) == n + 1);
    assert(run_end(whole, n + 2, Class::Blank) == n + 2);
    assert(terms(whole, n + 1, 1) == Ok::<_, ParseError>((Seq::<MatchView>::empty(), n + 1)));
    assert(tokens(whole, Seq::<MatchView>::empty()) =~= Seq::<TokenView>::empty());
    terms_embedded(open, s, close, 0, 0, 1);
    let (found, at) = terms(whole, 1, 1)->Ok_0;
    assert(at == n + 1);
    assert(tokens(whole, found) =~= inside);
    if found.len() == 0 {
    } else {
        assert(enclosed(found)[0].inner == found);
    }
    let (m, next) = term(whole, 0, 0)->Ok_0;
    assert(next == n + 2);
    assert(token(whole, m) == Some(TokenView::Group(inside)));
    one_token(whole, m);
    assert(terms(whole, n + 2, 0) == Ok::<_, ParseError>((Seq::<MatchView>::empty(), n + 2)));
    assert(seq![m] + Seq::<MatchView>::empty() =~= seq![m]);
    assert(terms(whole, 0, 0) == Ok::<_, ParseError>((seq![m], n + 2)));
    tokenised_is_terms(whole);
}

/// Two queries with a space between them are a query, and its tokens are
/// those of the first and then those of the second.
pub proof fn spaced_is_both(a: Seq<char>, b: Seq<char>)
    requires
        tokenised(a) is Ok,
        tokenised(b) is Ok,
    ensures
        tokenised(a + seq![' '] + b) == Ok::<_, Seq<Seq<char>>>(
            tokenised(a)->Ok_0 + tokenised(b)->Ok_0,
        ),
{
    let gap = seq![' '];
    let none = Seq::<char>::empty();
    let whole = a + gap + b;
    let n = a.len() as int;
    tokenised_is_terms(a);
    tokenised_is_terms(b);
    tokenised_is_terms(whole);
    tokens_are_readable(a);
    tokens_are_readable(b);
    terms_readable(a, 0, 0);
    terms_readable(b, 0, 0);
    assert(whole =~= none + a + (gap + b));
    assert((gap + b)[0] == ' ');
    terms_embedded(none, a, gap + b, 0, 0, 0);
    assert(whole =~= (a + gap) + b + none);
    terms_embedded(a + gap, b, none, 0, 0, 0);
    assert(whole[n] == ' ');
    terms_after_blank(whole, n, 0);
    assert(run_end(whole, whole.len() as int, Class::Blank) == whole.len());
    let (rest, stop) = terms(whole, whole.len() as int, 0)->Ok_0;
    assert(tokens(whole, rest) =~= Seq::<TokenView>::empty());
    let (second, at) = terms(whole, n + 1, 0)->Ok_0;
    assert(tokens(whole, second) =~= tokenised(b)->Ok_0);
}

} // verus!

//! How deep the groups of a query nest, read off the text and read off the
//! tokens.

use vstd::prelude::*;
use crate::parse::grammar::{atom, enclosed, term, terms, MatchView, MAX_DEPTH};
use crate::parse::search::{token, tokenised, tokens, TokenView};
use crate::parse::text::{run_end, run_end_bounds, Class};

verus! {

/// The greater of two levels.
pub open spec fn higher(a: nat, b: nat) -> nat {
    if a >= b {
        a
    } else {
        b
    }
}

/// The deepest level of what follows, and `level` at least.
pub open spec fn raised(rest: Option<nat>, level: nat) -> Option<nat> {
    match rest {
        Some(deepest) => Some(higher(deepest, level)),
        None => None,
    }
}

/// Reads the brackets of a text from `i` on, where `open` groups are open
/// and no quote is: the deepest level reached from there to the end, or
/// nothing where the brackets do not balance. They balance where every
/// quote is closed, every `)` outside a quote closes a group, no group is
/// open at the end, and no `(` outside a quote stands inside `MAX_DEPTH`
/// groups.
pub open spec fn deepest(s: Seq<char>, i: int, open: nat) -> Option<nat>
    decreases s.len() - i,
{
    if i < 0 || i >= s.len() {
        if open == 0 {
            Some(0)
        } else {
            None
        }
    } else if s[i] == '"' {
        let close = run_end(s, i + 1, Class::Quoted);
        if i < close < s.len() {
            deepest(s, close + 1, open)
        } else {
            None
        }
    } else if s[i] == '(' {
        if open >= MAX_DEPTH {
            None
        } else {
            deepest(s, i + 1, open + 1)
        }
    } else if s[i] == ')' {
        if open == 0 {
            None
        } else {
            raised(deepest(s, i + 1, (open - 1) as nat), open)
        }
    } else {
        deepest(s, i + 1, open)
    }
}

/// How deep the groups among `tokens` nest: 0 where there is no group.
pub open spec fn depth(tokens: Seq<TokenView>) -> nat
    decreases tokens, 1nat,
{
    if tokens.len() == 0 {
        0
    } else {
        higher(depth(tokens.drop_last()), depth_of(tokens.last()))
    }
}

/// How deep a token nests: a group one level more than the tokens inside
/// it, any other token not at all.
pub open spec fn depth_of(t: TokenView) -> nat
    decreases t, 0nat,
{
    match t {
        TokenView::Group(inside) => 1 + depth(inside),
        _ => 0,
    }
}

/// The deepest level reached is not below the level at which the reading
/// starts.
proof fn deepest_at_least(s: Seq<char>, i: int, open: nat)
    ensures
        deepest(s, i, open) matches Some(d) ==> d >= open,
    decreases s.len() - i,
{
    if i < 0 || i >= s.len() {
    } else if s[i] == '"' {
        let close = run_end(s, i + 1, Class::Quoted);
        if i < close < s.len() {
            deepest_at_least(s, close + 1, open);
        }
    } else if s[i] == '(' {
        if open < MAX_DEPTH {
            deepest_at_least(s, i + 1, open + 1);
        }
    } else if s[i] == ')' {
    } else {
        deepest_at_least(s, i + 1, open);
    }
}

/// The deepest level reached is not above `MAX_DEPTH`.
pub proof fn deepest_at_most(s: Seq<char>, i: int, open: nat)
    requires
        open <= MAX_DEPTH,
    ensures
        deepest(s, i, open) matches Some(d) ==> d <= MAX_DEPTH,
    decreases s.len() - i,
{
    if i < 0 || i >= s.len() {
    } else if s[i] == '"' {
        let close = run_end(s, i + 1, Class::Quoted);
        if i < close < s.len() {
            deepest_at_most(s, close + 1, open);
        }
    } else if s[i] == '(' {
        if open < MAX_DEPTH {
            deepest_at_most(s, i + 1, open + 1);
        }
    } else if s[i] == ')' {
        if open > 0 {
            deepest_at_most(s, i + 1, (open - 1) as nat);
        }
    } else {
        deepest_at_most(s, i + 1, open);
    }
}

/// Characters that are neither brackets nor quotation marks change nothing.
proof fn deepest_skip(s: Seq<char>, i: int, j: int, open: nat)
    requires
        0 <= i <= j <= s.len(),
        forall|k: int| i <= k < j ==> (#[trigger] s[k]) != '"' && s[k] != '(' && s[k] != ')',
    ensures
        deepest(s, i, open) == deepest(s, j, open),
    decreases j - i,
{
    if i < j {
        assert(s[i] != '"' && s[i] != '(' && s[i] != ')');
        deepest_skip(s, i + 1, j, open);
    }
}

/// The tokens of matches that stand one after the other are the tokens of
/// the first and then those of the second.
pub proof fn tokens_concat(s: Seq<char>, a: Seq<MatchView>, b: Seq<MatchView>)
    ensures
        tokens(s, a + b) == tokens(s, a) + tokens(s, b),
    decreases b.len(),
{
    if b.len() == 0 {
        assert(a + b =~= a);
        assert(tokens(s, a) + tokens(s, b) =~= tokens(s, a));
    } else {
        let init = b.drop_last();
        tokens_concat(s, a, init);
        assert((a + b).drop_last() =~= a + init);
        assert((a + b).last() == b.last());
        match token(s, b.last()) {
            Some(t) => {
                assert((tokens(s, a) + tokens(s, init)).push(t) =~= tokens(s, a) + tokens(
                    s,
                    init,
                ).push(t));
            },
            None => {},
        }
    }
}

/// Tokens that stand one after the other nest as deep as the deeper of the
/// two.
pub proof fn depth_concat(a: Seq<TokenView>, b: Seq<TokenView>)
    ensures
        depth(a + b) == higher(depth(a), depth(b)),
    decreases b.len(),
{
    if b.len() == 0 {
        assert(a + b =~= a);
    } else {
        depth_concat(a, b.drop_last());
        assert((a + b).drop_last() =~= a + b.drop_last());
        assert((a + b).last() == b.last());
    }
}

/// The tokens of one match are its token.
pub proof fn one_token(s: Seq<char>, m: MatchView)
    requires
        token(s, m) is Some,
    ensures
        tokens(s, seq![m]) == seq![token(s, m)->0],
{
    let none = Seq::<MatchView>::empty();
    assert(seq![m].drop_last() =~= none);
    assert(seq![m].last() == m);
    assert(tokens(s, none) =~= Seq::<TokenView>::empty());
    assert(tokens(s, seq![m]) == tokens(s, none).push(token(s, m)->0));
    assert(tokens(s, none).push(token(s, m)->0) =~= seq![token(s, m)->0]);
}

/// One token alone nests as deep as it does.
pub proof fn one_depth(t: TokenView)
    ensures
        depth(seq![t]) == depth_of(t),
{
    let none = Seq::<TokenView>::empty();
    assert(seq![t].drop_last() =~= none);
    assert(seq![t].last() == t);
    assert(depth(none) == 0);
    assert(depth(seq![t]) == higher(depth(none), depth_of(t)));
}

/// A word gives one token, and that token is no group.
proof fn atom_is_flat(s: Seq<char>, j: int)
    ensures
        token(s, atom(s, j)) matches Some(t) && depth_of(t) == 0,
{
}

/// What reading the terms from `i` on gives agrees with the brackets from
/// `i` on: where the terms are read up to `end`, the brackets reach as deep
/// as the tokens of the terms nest, or as what follows `end`; where reading
/// the terms fails, the brackets do not balance.
proof fn terms_nesting(s: Seq<char>, i: int, open: nat)
    requires
        0 <= i <= s.len(),
        open <= MAX_DEPTH,
    ensures
        match terms(s, i, open) {
            Ok((found, end)) => {
                &&& i <= end <= s.len()
                &&& end < s.len() ==> s[end] == ')'
                &&& deepest(s, i, open) == raised(
                    deepest(s, end, open),
                    open + depth(tokens(s, found)),
                )
            },
            Err(_) => deepest(s, i, open) is None,
        },
    decreases s.len() - i, 1nat,
{
    let j = run_end(s, i, Class::Blank);
    run_end_bounds(s, i, Class::Blank);
    deepest_skip(s, i, j, open);
    if j >= s.len() || s[j] == ')' {
        deepest_at_least(s, j, open);
    } else {
        term_nesting(s, j, open);
        match term(s, j, open) {
            Err(_) => {},
            Ok((first, next)) => {
                terms_nesting(s, next, open);
                match terms(s, next, open) {
                    Err(_) => {},
                    Ok((rest, end)) => {
                        let t = token(s, first)->0;
                        tokens_concat(s, seq![first], rest);
                        one_token(s, first);
                        depth_concat(seq![t], tokens(s, rest));
                        one_depth(t);
                    },
                }
            },
        }
    }
}

/// What reading the term at `j` gives agrees with the brackets from `j`
/// on: a term that is read gives one token, and the brackets reach as deep
/// as that token nests, or as what follows the term; where reading the
/// term fails, the brackets do not balance.
proof fn term_nesting(s: Seq<char>, j: int, open: nat)
    requires
        0 <= j < s.len(),
        open <= MAX_DEPTH,
        s[j] != ' ',
        s[j] != ')',
    ensures
        match term(s, j, open) {
            Ok((found, next)) => {
                &&& j < next <= s.len()
                &&& token(s, found) is Some
                &&& deepest(s, j, open) == raised(
                    deepest(s, next, open),
                    open + depth_of(token(s, found)->0),
                )
            },
            Err(_) => deepest(s, j, open) is None,
        },
    decreases s.len() - j, 0nat,
{
    if s[j] == '(' {
        if open < MAX_DEPTH {
            terms_nesting(s, j + 1, open + 1);
            match terms(s, j + 1, open + 1) {
                Err(_) => {},
                Ok((inside, close)) => {
                    if close < s.len() {
                        deepest_at_least(s, close + 1, open);
                        let inner = enclosed(inside);
                        if inside.len() == 0 {
                            assert(tokens(s, inside) =~= Seq::<TokenView>::empty());
                        } else {
                            assert(inner[0].inner == inside);
                        }
                    }
                },
            }
        }
    } else if s[j] == '"' {
        let close = run_end(s, j + 1, Class::Quoted);
        run_end_bounds(s, j + 1, Class::Quoted);
        if close < s.len() {
            deepest_at_least(s, close + 1, open);
        }
    } else {
        let end = run_end(s, j, Class::Atom);
        run_end_bounds(s, j, Class::Atom);
        atom_is_flat(s, j);
        deepest_skip(s, j, end, open);
        deepest_at_least(s, end, open);
    }
}

/// Nesting is kept: a text is a query exactly where its brackets balance,
/// and the tokens of a query nest exactly as deep as its brackets.
pub proof fn nesting_is_kept(s: Seq<char>)
    ensures
        match tokenised(s) {
            Ok(found) => deepest(s, 0, 0) == Some(depth(found)),
            Err(_) => deepest(s, 0, 0) is None,
        },
{
    terms_nesting(s, 0, 0);
    match terms(s, 0, 0) {
        Err(_) => {},
        Ok((found, end)) => {
            if end < s.len() {
            } else {
                if found.len() > 0 {
                    assert(enclosed(found)[0].inner == found);
                } else {
                    assert(tokens(s, found) =~= Seq::<TokenView>::empty());
                }
            }
        },
    }
}

} // verus!

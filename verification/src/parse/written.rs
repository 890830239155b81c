//! Tokens written back as text, and read again.

use vstd::prelude::*;
use vstd::string::*;
use crate::parse::diagnostic::{decimal, decimal_of, digit_char};
use crate::parse::grammar::{
    atom,
    enclosed,
    id_at,
    pair_at,
    term,
    terms,
    MatchView,
    ParseError,
    MAX_DEPTH,
};
use crate::parse::nesting::{
    deepest_at_most,
    depth,
    depth_concat,
    depth_of,
    nesting_is_kept,
    one_depth,
    one_token,
    tokens_concat,
};
use crate::parse::search::{
    all_digits,
    text,
    token,
    token_views,
    token_views_index,
    tokenised,
    tokens,
    unhashed,
    unsigned,
    value,
    Token,
    TokenView,
};
use crate::parse::text::{
    digit,
    member,
    run_end,
    run_end_bounds,
    run_end_is,
    run_end_prefix,
    run_end_shift,
    Class,
};

verus! {

/// Whether every character of a text belongs to `class`.
pub open spec fn all_in(class: Class, t: Seq<char>) -> bool {
    forall|i: int| 0 <= i < t.len() ==> member(class, #[trigger] t[i])
}

/// How one token is written: a word as it is, a quote between two `"`, a
/// pair with `=` between key and value, an id as `#` and its number in
/// decimal, a connective by its word, a group as its tokens between `(`
/// and `)`.
pub open spec fn written_one(t: TokenView) -> Seq<char>
    decreases t, 0nat,
{
    match t {
        TokenView::Word(word) => word,
        TokenView::Quote(quoted) => seq!['"'] + quoted + seq!['"'],
        TokenView::Pair(key, value) => key + seq!['='] + value,
        TokenView::Id(n) => seq!['#'] + decimal(n),
        TokenView::LogicAnd => seq!['a', 'n', 'd'],
        TokenView::LogicOr => seq!['o', 'r'],
        TokenView::LogicNot => seq!['n', 'o', 't'],
        TokenView::Group(inside) => seq!['('] + written(inside) + seq![')'],
    }
}

/// How tokens are written: each as it is written alone, with one space
/// between neighbours.
pub open spec fn written(ts: Seq<TokenView>) -> Seq<char>
    decreases ts, 1nat,
{
    if ts.len() == 0 {
        Seq::empty()
    } else if ts.len() == 1 {
        written_one(ts[0])
    } else {
        written_one(ts[0]) + seq![' '] + written(ts.drop_first())
    }
}

/// Whether a token is one that reading a query can give: a word that is
/// not empty, holds no space, bracket or quotation mark and is read, alone,
/// as that word, so neither as a pair, as a connective nor as the id of a
/// number; a quote without a quotation mark in it; a pair whose key and
/// value are not empty and hold none of these nor `=`; an id that a `usize`
/// holds; a group of such tokens.
pub open spec fn readable_one(t: TokenView) -> bool
    decreases t, 0nat,
{
    match t {
        TokenView::Word(word) => word.len() > 0 && all_in(Class::Atom, word) && token(
            word,
            atom(word, 0),
        ) == Some(t),
        TokenView::Quote(quoted) => all_in(Class::Quoted, quoted),
        TokenView::Pair(key, value) => key.len() > 0 && all_in(Class::Side, key) && value.len() > 0
            && all_in(Class::Side, value),
        TokenView::Id(n) => n <= usize::MAX,
        TokenView::Group(inside) => readable(inside),
        _ => true,
    }
}

/// Whether every token of a sequence is one that reading a query can give.
pub open spec fn readable(ts: Seq<TokenView>) -> bool
    decreases ts, 1nat,
{
    forall|i: int| 0 <= i < ts.len() ==> readable_one(#[trigger] ts[i])
}

/// A word that is not empty, holds neither a space, a bracket, a quotation
/// mark nor `=`, does not start with `#` and is no connective, is one that
/// reading a query can give.
pub proof fn simple_word_is_readable(word: Seq<char>)
    requires
        word.len() > 0,
        all_in(Class::Side, word),
        word[0] != '#',
        word != seq!['a', 'n', 'd'],
        word != seq!['o', 'r'],
        word != seq!['n', 'o', 't'],
    ensures
        readable_one(TokenView::Word(word)),
{
    let n = word.len() as int;
    assert forall|i: int| 0 <= i < n implies member(Class::Atom, #[trigger] word[i]) by {
        assert(member(Class::Side, word[i]));
    }
    run_end_is(word, 0, n, Class::Atom);
    run_end_is(word, 0, n, Class::Side);
    assert(word.subrange(0, n) =~= word);
}

/// Whether a character ends a word.
pub open spec fn stop(c: char) -> bool {
    c == ' ' || c == ')'
}

/// A run inside a text that stands between two others ends where it ends
/// in that text alone, given that what follows the text does not prolong
/// the run.
proof fn run_end_embedded(pre: Seq<char>, x: Seq<char>, post: Seq<char>, i: int, class: Class)
    requires
        0 <= i <= x.len(),
        post.len() == 0 || !member(class, post[0]),
    ensures
        run_end(pre + x + post, pre.len() + i, class) == pre.len() + run_end(x, i, class),
{
    assert(pre + x + post =~= pre + (x + post));
    run_end_shift(pre, x + post, i, class);
    run_end_prefix(x, post, i, class);
    run_end_bounds(x, i, class);
    assert(run_end(post, 0, class) == 0);
}

/// The number that `n` in decimal writes is `n`.
pub proof fn decimal_reads_back(n: nat)
    ensures
        decimal(n).len() > 0,
        all_in(Class::Digit, decimal(n)),
        value(decimal(n)) == n,
    decreases n,
{
    if n < 10 {
        let d = seq![digit_char(n)];
        assert(d.drop_last() =~= Seq::<char>::empty());
        assert(value(d.drop_last()) == 0);
        assert(d.last() == digit_char(n));
    } else {
        decimal_reads_back(n / 10);
        let init = decimal(n / 10);
        let c = digit_char(n % 10);
        assert(init.push(c).drop_last() =~= init);
        assert(init.push(c).last() == c);
        assert forall|i: int| 0 <= i < decimal(n).len() implies member(
            Class::Digit,
            #[trigger] decimal(n)[i],
        ) by {
            if i < init.len() {
                assert(decimal(n)[i] == init[i]);
            }
        }
    }
}

/// A word between two texts is read as it is read alone, given that what
/// follows it ends a word.
pub proof fn atom_embedded(pre: Seq<char>, x: Seq<char>, post: Seq<char>)
    requires
        x.len() > 0,
        all_in(Class::Atom, x),
        post.len() == 0 || !member(Class::Atom, post[0]),
    ensures
        run_end(pre + x + post, pre.len() as int, Class::Atom) == pre.len() + x.len(),
        token(pre + x + post, atom(pre + x + post, pre.len() as int)) == token(x, atom(x, 0)),
{
    let s = pre + x + post;
    let p = pre.len() as int;
    let n = x.len() as int;
    run_end_is(x, 0, n, Class::Atom);
    run_end_embedded(pre, x, post, 0, Class::Atom);
    run_end_embedded(pre, x, post, 0, Class::Side);
    run_end_embedded(pre, x, post, 1, Class::Digit);
    let k = run_end(x, 0, Class::Side);
    run_end_bounds(x, 0, Class::Side);
    if k + 1 <= n {
        run_end_embedded(pre, x, post, k + 1, Class::Side);
    }
    assert(s[p] == x[0]);
    assert(s.subrange(p, p + n) =~= x);
    assert(x.subrange(0, n) =~= x);
    assert(pair_at(s, p) == pair_at(x, 0));
    assert(id_at(s, p) == id_at(x, 0));
    if pair_at(x, 0) {
        assert(s.subrange(p, p + k) =~= x.subrange(0, k));
        assert(s.subrange(p + k + 1, p + n) =~= x.subrange(k + 1, n));
    }
}

/// A connective, alone, is read as that connective.
proof fn connective_alone(t: TokenView)
    requires
        t is LogicAnd || t is LogicOr || t is LogicNot,
    ensures
        written_one(t).len() > 0,
        all_in(Class::Atom, written_one(t)),
        token(written_one(t), atom(written_one(t), 0)) == Some(t),
{
    let x = written_one(t);
    let n = x.len() as int;
    run_end_is(x, 0, n, Class::Atom);
    run_end_is(x, 0, n, Class::Side);
    assert(x.subrange(0, n) =~= x);
    assert(!pair_at(x, 0));
    assert(!id_at(x, 0));
}

/// An id as it is written, alone, is read as that id.
proof fn id_alone(n: nat)
    requires
        n <= usize::MAX,
    ensures
        all_in(Class::Atom, written_one(TokenView::Id(n))),
        token(written_one(TokenView::Id(n)), atom(written_one(TokenView::Id(n)), 0)) == Some(
            TokenView::Id(n),
        ),
{
    let x = written_one(TokenView::Id(n));
    let digits = decimal(n);
    let len = x.len() as int;
    decimal_reads_back(n);
    assert forall|i: int| 0 <= i < len implies member(Class::Atom, #[trigger] x[i]) && member(
        Class::Side,
        x[i],
    ) && (i >= 1 ==> member(Class::Digit, x[i])) by {
        if i >= 1 {
            assert(x[i] == digits[i - 1]);
            assert(member(Class::Digit, digits[i - 1]));
        }
    }
    run_end_is(x, 0, len, Class::Atom);
    run_end_is(x, 0, len, Class::Side);
    run_end_is(x, 1, len, Class::Digit);
    assert(!pair_at(x, 0));
    assert(id_at(x, 0));
    assert(x.subrange(0, len) =~= x);
    assert(x[1] == digits[0]);
    run_end_is(x, 0, 1, Class::Hash);
    assert(x.skip(1) =~= digits);
    assert(unhashed(x) == digits);
    assert(unsigned(digits) == digits);
    assert(all_digits(digits)) by {
        assert forall|i: int| 0 <= i < digits.len() implies digit(#[trigger] digits[i]) by {
            assert(member(Class::Digit, digits[i]));
        }
    }
}

/// A readable pair as it is written, alone, is read as that pair.
proof fn pair_alone(key: Seq<char>, value: Seq<char>)
    requires
        readable_one(TokenView::Pair(key, value)),
    ensures
        all_in(Class::Atom, written_one(TokenView::Pair(key, value))),
        token(
            written_one(TokenView::Pair(key, value)),
            atom(written_one(TokenView::Pair(key, value)), 0),
        ) == Some(TokenView::Pair(key, value)),
{
    let x = written_one(TokenView::Pair(key, value));
    let k = key.len() as int;
    let len = x.len() as int;
    assert forall|i: int| 0 <= i < len implies member(Class::Atom, #[trigger] x[i]) && (i != k
        ==> member(Class::Side, x[i])) by {
        if i < k {
            assert(x[i] == key[i]);
            assert(member(Class::Side, key[i]));
        } else if i > k {
            assert(x[i] == value[i - k - 1]);
            assert(member(Class::Side, value[i - k - 1]));
        }
    }
    assert(x[k] == '=');
    run_end_is(x, 0, len, Class::Atom);
    run_end_is(x, 0, k, Class::Side);
    run_end_is(x, k + 1, len, Class::Side);
    assert(pair_at(x, 0));
    assert(x.subrange(0, k) =~= key);
    assert(x.subrange(k + 1, len) =~= value);
}

/// Reading the terms at a space goes on as behind the space.
pub proof fn terms_after_blank(s: Seq<char>, i: int, open: nat)
    requires
        0 <= i < s.len(),
        s[i] == ' ',
    ensures
        terms(s, i, open) == terms(s, i + 1, open),
{
    run_end_bounds(s, i + 1, Class::Blank);
    assert(run_end(s, i, Class::Blank) == run_end(s, i + 1, Class::Blank));
}

/// The first of several tokens and the rest of them are readable and nest
/// no deeper than all of them.
proof fn first_and_rest(ts: Seq<TokenView>)
    requires
        ts.len() > 0,
        readable(ts),
    ensures
        readable_one(ts[0]),
        readable(ts.drop_first()),
        depth_of(ts[0]) <= depth(ts),
        depth(ts.drop_first()) <= depth(ts),
{
    let rest = ts.drop_first();
    assert forall|i: int| 0 <= i < rest.len() implies readable_one(#[trigger] rest[i]) by {
        assert(rest[i] == ts[i + 1]);
    }
    assert(ts =~= seq![ts[0]] + rest);
    depth_concat(seq![ts[0]], rest);
    one_depth(ts[0]);
}

/// What is written for a token is not empty and starts with neither a
/// space nor `)`.
proof fn written_one_starts(t: TokenView)
    requires
        readable_one(t),
    ensures
        written_one(t).len() > 0,
        !stop(written_one(t)[0]),
{
    match t {
        TokenView::Word(word) => {
            assert(member(Class::Atom, word[0]));
        },
        TokenView::Pair(key, value) => {
            assert(written_one(t)[0] == key[0]);
            assert(member(Class::Side, key[0]));
        },
        _ => {},
    }
}

/// Written tokens, between two texts, are read as those tokens: reading
/// the terms from where the written tokens start gives matches whose tokens
/// they are, and ends where the written tokens end; given that what follows
/// is nothing or starts with `)`.
proof fn written_terms(pre: Seq<char>, ts: Seq<TokenView>, post: Seq<char>, open: nat)
    requires
        readable(ts),
        open + depth(ts) <= MAX_DEPTH,
        post.len() == 0 || post[0] == ')',
    ensures
        terms(pre + written(ts) + post, pre.len() as int, open) matches Ok((found, end)) && end
            == pre.len() + written(ts).len() && tokens(pre + written(ts) + post, found) == ts,
    decreases ts, 1nat,
{
    let s = pre + written(ts) + post;
    let p = pre.len() as int;
    if ts.len() == 0 {
        if post.len() > 0 {
            assert(s[p] == post[0]);
        }
        assert(run_end(s, p, Class::Blank) == p);
        assert(tokens(s, Seq::<MatchView>::empty()) =~= ts);
    } else {
        let first = ts[0];
        let rest = ts.drop_first();
        let x = written_one(first);
        first_and_rest(ts);
        written_one_starts(first);
        let tail = if rest.len() == 0 {
            post
        } else {
            seq![' '] + written(rest) + post
        };
        assert(s =~= pre + x + tail);
        assert(tail.len() == 0 || stop(tail[0]));
        assert(s[p] == x[0]);
        assert(run_end(s, p, Class::Blank) == p);
        written_term(pre, first, tail, open);
        let (m, next) = term(s, p, open)->Ok_0;
        one_token(s, m);
        if rest.len() == 0 {
            assert(ts =~= seq![first]);
            if post.len() > 0 {
                assert(s[next] == post[0]);
            }
            assert(run_end(s, next, Class::Blank) == next);
            assert(terms(s, next, open) == Ok::<_, ParseError>(
                (Seq::<MatchView>::empty(), next),
            ));
            assert(seq![m] + Seq::<MatchView>::empty() =~= seq![m]);
        } else {
            let before = pre + x + seq![' '];
            assert(s =~= before + written(rest) + post);
            written_terms(before, rest, post, open);
            assert(s[next] == ' ');
            terms_after_blank(s, next, open);
            let (others, end) = terms(s, next + 1, open)->Ok_0;
            tokens_concat(s, seq![m], others);
            assert(seq![first] + rest =~= ts);
        }
    }
}

/// A written token, between two texts, is read as that token: reading the
/// term where it starts gives a match whose token it is, and ends where it
/// ends; given that what follows is nothing or starts with a space or `)`.
proof fn written_term(pre: Seq<char>, t: TokenView, post: Seq<char>, open: nat)
    requires
        readable_one(t),
        open + depth_of(t) <= MAX_DEPTH,
        post.len() == 0 || stop(post[0]),
    ensures
        term(pre + written_one(t) + post, pre.len() as int, open) matches Ok((found, next)) && next
            == pre.len() + written_one(t).len() && token(pre + written_one(t) + post, found)
            == Some(t),
    decreases t, 0nat,
{
    let x = written_one(t);
    let s = pre + x + post;
    let p = pre.len() as int;
    let n = x.len() as int;
    written_one_starts(t);
    assert(s[p] == x[0]);
    match t {
        TokenView::Group(inside) => {
            let before = pre + seq!['('];
            let after = seq![')'] + post;
            assert(s =~= before + written(inside) + after);
            written_terms(before, inside, after, open + 1);
            let (found, close) = terms(s, p + 1, open + 1)->Ok_0;
            assert(s[close] == ')');
            if found.len() == 0 {
                assert(tokens(s, found) =~= Seq::<TokenView>::empty());
            } else {
                assert(enclosed(found)[0].inner == found);
            }
        },
        TokenView::Quote(quoted) => {
            let q = quoted.len() as int;
            assert forall|k: int| p + 1 <= k < p + 1 + q implies member(
                Class::Quoted,
                #[trigger] s[k],
            ) by {
                assert(s[k] == quoted[k - p - 1]);
            }
            assert(s[p + 1 + q] == '"');
            run_end_is(s, p + 1, p + 1 + q, Class::Quoted);
            assert(s.subrange(p + 1, p + 1 + q) =~= quoted);
        },
        TokenView::Word(word) => {
            atom_embedded(pre, x, post);
            assert(member(Class::Atom, x[0]));
        },
        TokenView::Pair(key, value) => {
            pair_alone(key, value);
            atom_embedded(pre, x, post);
            assert(member(Class::Atom, x[0]));
        },
        TokenView::Id(n) => {
            id_alone(n);
            atom_embedded(pre, x, post);
        },
        _ => {
            connective_alone(t);
            atom_embedded(pre, x, post);
        },
    }
}

/// Reading what is written gives what was written: tokens that reading a
/// query can give, and that nest no deeper than `MAX_DEPTH`, are the tokens
/// of the text that writes them.
pub proof fn written_reads_back(ts: Seq<TokenView>)
    requires
        readable(ts),
        depth(ts) <= MAX_DEPTH,
    ensures
        tokenised(written(ts)) == Ok::<_, Seq<Seq<char>>>(ts),
{
    let none = Seq::<char>::empty();
    let s = written(ts);
    assert(none + s + none =~= s);
    written_terms(none, ts, none, 0);
    let (found, end) = terms(s, 0, 0)->Ok_0;
    if found.len() > 0 {
        assert(enclosed(found)[0].inner == found);
    } else {
        assert(tokens(s, found) =~= Seq::<TokenView>::empty());
    }
}

/// A word, alone, is read as a token that reading a query can give.
proof fn atom_alone_readable(x: Seq<char>)
    requires
        x.len() > 0,
        all_in(Class::Atom, x),
    ensures
        token(x, atom(x, 0)) matches Some(t) && readable_one(t),
{
    let n = x.len() as int;
    run_end_is(x, 0, n, Class::Atom);
    assert(x.subrange(0, n) =~= x);
    if pair_at(x, 0) {
        let k = run_end(x, 0, Class::Side);
        run_end_bounds(x, 0, Class::Side);
        run_end_bounds(x, k + 1, Class::Side);
        let key = x.subrange(0, k);
        let value = x.subrange(k + 1, n);
        assert forall|i: int| 0 <= i < key.len() implies member(Class::Side, #[trigger] key[i]) by {
            assert(key[i] == x[i]);
        }
        assert forall|i: int| 0 <= i < value.len() implies member(
            Class::Side,
            #[trigger] value[i],
        ) by {
            assert(value[i] == x[k + 1 + i]);
        }
    }
}

/// The tokens of the terms read from `i` on are tokens that reading a
/// query can give.
pub proof fn terms_readable(s: Seq<char>, i: int, open: nat)
    requires
        0 <= i <= s.len(),
    ensures
        terms(s, i, open) matches Ok((found, end)) ==> i <= end <= s.len() && readable(
            tokens(s, found),
        ),
    decreases s.len() - i, 1nat,
{
    let j = run_end(s, i, Class::Blank);
    run_end_bounds(s, i, Class::Blank);
    if j >= s.len() || s[j] == ')' {
        assert(tokens(s, Seq::<MatchView>::empty()) =~= Seq::<TokenView>::empty());
    } else {
        term_readable(s, j, open);
        match term(s, j, open) {
            Err(_) => {},
            Ok((first, next)) => {
                terms_readable(s, next, open);
                match terms(s, next, open) {
                    Err(_) => {},
                    Ok((rest, end)) => {
                        let t = token(s, first)->0;
                        tokens_concat(s, seq![first], rest);
                        one_token(s, first);
                        let all = seq![t] + tokens(s, rest);
                        assert forall|k: int| 0 <= k < all.len() implies readable_one(
                            #[trigger] all[k],
                        ) by {
                            if k > 0 {
                                assert(all[k] == tokens(s, rest)[k - 1]);
                            }
                        }
                    },
                }
            },
        }
    }
}

/// The token of the term read at `j` is one that reading a query can give.
pub proof fn term_readable(s: Seq<char>, j: int, open: nat)
    requires
        0 <= j < s.len(),
        s[j] != ' ',
        s[j] != ')',
    ensures
        term(s, j, open) matches Ok((found, next)) ==> j < next <= s.len() && (token(
            s,
            found,
        ) matches Some(t) && readable_one(t)),
    decreases s.len() - j, 0nat,
{
    if s[j] == '(' {
        if open < MAX_DEPTH {
            terms_readable(s, j + 1, open + 1);
            match terms(s, j + 1, open + 1) {
                Err(_) => {},
                Ok((inside, close)) => {
                    if inside.len() == 0 {
                        assert(readable(Seq::<TokenView>::empty()));
                    } else {
                        assert(enclosed(inside)[0].inner == inside);
                    }
                },
            }
        }
    } else if s[j] == '"' {
        let close = run_end(s, j + 1, Class::Quoted);
        run_end_bounds(s, j + 1, Class::Quoted);
        let quoted = s.subrange(j + 1, close);
        assert forall|k: int| 0 <= k < quoted.len() implies member(
            Class::Quoted,
            #[trigger] quoted[k],
        ) by {
            assert(quoted[k] == s[j + 1 + k]);
        }
    } else {
        let end = run_end(s, j, Class::Atom);
        run_end_bounds(s, j, Class::Atom);
        let x = s.subrange(j, end);
        assert(member(Class::Atom, s[j]));
        assert forall|k: int| 0 <= k < x.len() implies member(Class::Atom, #[trigger] x[k]) by {
            assert(x[k] == s[j + k]);
        }
        let pre = s.take(j);
        let post = s.skip(end);
        assert(s =~= pre + x + post);
        if post.len() > 0 {
            assert(post[0] == s[end]);
        }
        atom_embedded(pre, x, post);
        atom_alone_readable(x);
    }
}

/// What reading gives can be written: the tokens of a query are tokens
/// that reading a query can give, and nest no deeper than `MAX_DEPTH`.
/// With `written_reads_back`: the token sequences that reading gives are
/// exactly these.
pub proof fn tokens_are_readable(s: Seq<char>)
    ensures
        tokenised(s) matches Ok(found) ==> readable(found) && depth(found) <= MAX_DEPTH,
{
    terms_readable(s, 0, 0);
    nesting_is_kept(s);
    deepest_at_most(s, 0, 0);
    match terms(s, 0, 0) {
        Err(_) => {},
        Ok((found, end)) => {
            if found.len() > 0 {
                assert(enclosed(found)[0].inner == found);
            } else {
                assert(tokens(s, found) =~= Seq::<TokenView>::empty());
            }
        },
    }
}

/// Writing the tokens of a query and reading what was written gives the
/// same tokens again.
pub proof fn rewritten_reads_the_same(s: Seq<char>)
    ensures
        tokenised(s) matches Ok(found) ==> tokenised(written(found)) == tokenised(s),
{
    tokens_are_readable(s);
    if let Ok(found) = tokenised(s) {
        written_reads_back(found);
    }
}

/// Appends one token, as it is written, to `out`.
fn put_one(t: &Token, out: &mut String)
    ensures
        final(out)@ == old(out)@ + written_one(t@),
    decreases t, 0nat,
{
    let ghost before = out@;
    match t {
        Token::Word(word) => {
            out.append(word.as_str());
        },
        Token::Quote(quoted) => {
            out.push('"');
            out.append(quoted.as_str());
            out.push('"');
            assert(out@ =~= before + (seq!['"'] + quoted@ + seq!['"']));
        },
        Token::Pair(key, value) => {
            out.append(key.as_str());
            out.push('=');
            out.append(value.as_str());
            assert(out@ =~= before + (key@ + seq!['='] + value@));
        },
        Token::Id(n) => {
            out.push('#');
            let digits = decimal_of(*n);
            out.append(digits.as_str());
            assert(out@ =~= before + (seq!['#'] + decimal(*n as nat)));
        },
        Token::LogicAnd(_) => {
            out.push('a');
            out.push('n');
            out.push('d');
            assert(out@ =~= before + seq!['a', 'n', 'd']);
        },
        Token::LogicOr(_) => {
            out.push('o');
            out.push('r');
            assert(out@ =~= before + seq!['o', 'r']);
        },
        Token::LogicNot(_) => {
            out.push('n');
            out.push('o');
            out.push('t');
            assert(out@ =~= before + seq!['n', 'o', 't']);
        },
        Token::Group(inside) => {
            out.push('(');
            put_all(inside, out);
            out.push(')');
            assert(out@ =~= before + (seq!['('] + written(token_views(inside@)) + seq![')']));
        },
    }
}

/// Appends the tokens, as they are written, to `out`.
fn put_all(tokens: &Vec<Token>, out: &mut String)
    ensures
        final(out)@ == old(out)@ + written(token_views(tokens@)),
    decreases tokens, 1nat,
{
    let ghost before = out@;
    let ghost all = token_views(tokens@);
    let n = tokens.len();
    proof {
        token_views_index(tokens@);
        assert(all.skip(0) =~= all);
        assert(before + Seq::<char>::empty() =~= before);
    }
    let mut i: usize = 0;
    while i < n
        invariant
            i <= n == tokens.len(),
            all == token_views(tokens@),
            all.len() == n,
            forall|k: int| 0 <= k < n ==> (#[trigger] all[k]) == tokens[k]@,
            i == 0 ==> out@ == before,
            0 < i < n ==> before + written(all) == out@ + seq![' '] + written(all.skip(i as int)),
            0 < i == n ==> before + written(all) == out@,
        decreases n - i,
    {
        let ghost here = all.skip(i as int);
        let ghost sofar = out@;
        if i > 0 {
            out.push(' ');
        }
        put_one(&tokens[i], out);
        proof {
            assert(here[0] == all[i as int]);
            assert(here.drop_first() =~= all.skip(i + 1));
            if i + 1 == n {
                assert(here.len() == 1);
                if i > 0 {
                    assert(sofar + seq![' '] + written_one(here[0]) =~= sofar.push(' ')
                        + written_one(here[0]));
                }
            } else {
                assert(written(here) == written_one(here[0]) + seq![' '] + written(
                    all.skip(i + 1),
                ));
                if i > 0 {
                    assert(sofar + seq![' '] + (written_one(here[0]) + seq![' '] + written(
                        all.skip(i + 1),
                    )) =~= sofar.push(' ') + written_one(here[0]) + seq![' '] + written(
                        all.skip(i + 1),
                    ));
                } else {
                    assert(before + (written_one(here[0]) + seq![' '] + written(all.skip(i + 1)))
                        =~= before + written_one(here[0]) + seq![' '] + written(all.skip(i + 1)));
                }
            }
        }
        i += 1;
    }
}

/// Writes tokens as a query: each token as the grammar reads it, one space
/// between neighbours, a group between `(` and `)`.
pub fn to_text(tokens: &Vec<Token>) -> (out: String)
    ensures
        out@ == written(token_views(tokens@)),
{
    let mut out = String::new();
    put_all(tokens, &mut out);
    assert(Seq::<char>::empty() + written(token_views(tokens@)) =~= written(token_views(tokens@)));
    out
}

} // verus!

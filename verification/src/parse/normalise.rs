//! The normaliser: lower case, single spaces, plain ASCII punctuation.
//!
//! A query is lower-cased, cut into segments at every run of whitespace, each
//! segment has its punctuation folded, character by character, onto a small
//! ASCII vocabulary, and the segments are joined again with one space
//! between them.

use vstd::prelude::*;
use crate::parse::text::{chars_of, run_end, skip_run, Class};

verus! {

/// Curly and angle double quotation marks.
pub open spec fn double_quote_like(c: char) -> bool {
    c == '\u{201c}' || c == '\u{201d}' || c == '\u{ab}' || c == '\u{bb}'
}

/// Curly and angle single quotation marks.
pub open spec fn single_quote_like(c: char) -> bool {
    c == '\u{2018}' || c == '\u{2019}' || c == '\u{2039}' || c == '\u{203a}'
}

/// The dashes: figure, en and em dash, horizontal bar, the two long em
/// dashes, swung dash, wave dash, fullwidth tilde and the prolonged sound
/// mark.
pub open spec fn dash_like(c: char) -> bool {
    ||| c == '\u{2012}'
    ||| c == '\u{2013}'
    ||| c == '\u{2014}'
    ||| c == '\u{2015}'
    ||| c == '\u{2e3a}'
    ||| c == '\u{2e3b}'
    ||| c == '\u{2053}'
    ||| c == '\u{301c}'
    ||| c == '\u{ff5e}'
    ||| c == '\u{30fc}'
}

/// The substitution table: what one character of a segment is written as.
/// A character that the table does not name stands for itself.
pub open spec fn folded(c: char) -> char {
    if double_quote_like(c) {
        '"'
    } else if single_quote_like(c) {
        '\''
    } else if dash_like(c) {
        '-'
    } else if c == '{' || c == '[' {
        '('
    } else if c == '}' || c == ']' {
        ')'
    } else if c == ':' || c == '\u{2248}' {
        '='
    } else {
        c
    }
}

/// The segments of `s` from index `i` on: its maximal runs of characters
/// that are not whitespace, in order.
pub open spec fn segments_from(s: Seq<char>, i: int) -> Seq<Seq<char>>
    decreases s.len() - i,
{
    let a = run_end(s, i, Class::Space);
    let b = run_end(s, a, Class::Solid);
    if i <= a && a < b && b <= s.len() {
        seq![s.subrange(a, b)] + segments_from(s, b)
    } else {
        seq![]
    }
}

/// The segments of `s`.
pub open spec fn segments(s: Seq<char>) -> Seq<Seq<char>> {
    segments_from(s, 0)
}

/// A segment in canonical punctuation: every character as the table writes
/// it, in order.
pub open spec fn folded_segment(segment: Seq<char>) -> Seq<char> {
    segment.map_values(|c: char| folded(c))
}

/// The parts with one ASCII space between neighbours.
pub open spec fn joined(parts: Seq<Seq<char>>) -> Seq<char>
    decreases parts.len(),
{
    if parts.len() == 0 {
        Seq::empty()
    } else if parts.len() == 1 {
        parts[0]
    } else {
        joined(parts.drop_last()) + seq![' '] + parts.last()
    }
}

/// The canonical form of a text: its segments, each in canonical
/// punctuation, joined by single spaces.
pub open spec fn canonical(s: Seq<char>) -> Seq<char> {
    joined(segments(s).map_values(|part: Seq<char>| folded_segment(part)))
}

/// What `str::to_lowercase` returns for a text.
pub uninterp spec fn lowercase(text: Seq<char>) -> Seq<char>;

/// What `normalise` returns: the canonical form of the lower-cased input.
pub open spec fn normalised(input: Seq<char>) -> Seq<char> {
    canonical(lowercase(input))
}

/// Calls `str::to_lowercase`, which gives the lower-case equivalent of a
/// text as a new string. The result is a function of the text alone and is
/// known here only by its name, `lowercase`.
#[verifier::external_body]
fn lowercased(text: &str) -> (lowered: String)
    ensures
        lowered@ == lowercase(text@),
{
    text.to_lowercase()
}

/// One character through the substitution table.
pub fn fold(c: char) -> (r: char)
    ensures
        r == folded(c),
{
    match c {
        '\u{201c}' | '\u{201d}' | '\u{ab}' | '\u{bb}' => '"',
        '\u{2018}' | '\u{2019}' | '\u{2039}' | '\u{203a}' => '\'',
        '\u{2012}' | '\u{2013}' | '\u{2014}' | '\u{2015}' | '\u{2e3a}' | '\u{2e3b}' | '\u{2053}'
        | '\u{301c}' | '\u{ff5e}' | '\u{30fc}' => '-',
        '{' | '[' => '(',
        '}' | ']' => ')',
        ':' | '\u{2248}' => '=',
        _ => c,
    }
}

/// Appends the canonical punctuation of the segment `chars[from..to]` to
/// `out`.
fn fold_segment(chars: &Vec<char>, from: usize, to: usize, out: &mut String)
    requires
        from <= to <= chars.len(),
    ensures
        final(out)@ == old(out)@ + folded_segment(chars@.subrange(from as int, to as int)),
{
    let ghost before = out@;
    let ghost mapped = folded_segment(chars@.subrange(from as int, to as int));
    let mut i: usize = from;
    proof {
        assert(before + mapped.take(0) =~= before);
    }
    while i < to
        invariant
            from <= i <= to <= chars.len(),
            mapped == folded_segment(chars@.subrange(from as int, to as int)),
            out@ == before + mapped.take(i - from),
        decreases to - i,
    {
        let c = fold(chars[i]);
        proof {
            let k = i - from;
            assert(mapped[k] == c);
            assert((before + mapped.take(k)).push(c) =~= before + mapped.take(k + 1));
        }
        out.push(c);
        i += 1;
    }
    proof {
        assert(mapped.take(to - from) =~= mapped);
    }
}

/// The canonical form of a text that is already in lower case: segments cut
/// at whitespace, punctuation folded, one space between segments.
pub fn canonicalise(lowered: &str) -> (out: String)
    ensures
        out@ == canonical(lowered@),
{
    let chars = chars_of(lowered);
    let n = chars.len();
    let mut out = String::new();
    let mut first = true;
    let mut i: usize = 0;
    let ghost done: Seq<Seq<char>> = Seq::empty();
    proof {
        assert(done.map_values(|part: Seq<char>| folded_segment(part)) =~= Seq::empty());
        assert(done + segments_from(chars@, 0) =~= segments(chars@));
    }
    loop
        invariant_except_break
            i <= n,
            first == (done.len() == 0),
            segments(chars@) == done + segments_from(chars@, i as int),
        invariant
            n == chars.len(),
            out@ == joined(done.map_values(|part: Seq<char>| folded_segment(part))),
        ensures
            done == segments(chars@),
        decreases n - i,
    {
        let ghost start = i;
        let a = skip_run(&chars, i, Class::Space);
        i = skip_run(&chars, a, Class::Solid);
        if a == i {
            proof {
                assert(segments_from(chars@, start as int) =~= Seq::empty());
                assert(done + Seq::<Seq<char>>::empty() =~= done);
            }
            break ;
        }
        if !first {
            out.push(' ');
        }
        fold_segment(&chars, a, i, &mut out);
        proof {
            let part = chars@.subrange(a as int, i as int);
            let f = |part: Seq<char>| folded_segment(part);
            let grown = done.push(part);
            assert(segments_from(chars@, start as int) == seq![part] + segments_from(
                chars@,
                i as int,
            ));
            assert(done + (seq![part] + segments_from(chars@, i as int)) =~= grown + segments_from(
                chars@,
                i as int,
            ));
            assert(grown.map_values(f) =~= done.map_values(f).push(folded_segment(part)));
            assert(grown.map_values(f).drop_last() =~= done.map_values(f));
            done = grown;
        }
        first = false;
    }
    out
}

/// The canonical form of a query: lower case, one ASCII space between
/// segments and none at either end, punctuation from the ASCII vocabulary.
pub fn normalise(input: String) -> (out: String)
    ensures
        out@ == normalised(input@),
{
    let lowered = lowercased(input.as_str());
    canonicalise(lowered.as_str())
}

} // verus!

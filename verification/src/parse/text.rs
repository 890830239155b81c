//! Characters, classes of characters and runs of them.

use vstd::prelude::*;
use vstd::std_specs::iter::IteratorSpec;

verus! {

/// The classes of characters that the normaliser and the grammar tell apart.
#[derive(Clone, Copy, Debug, PartialEq, Eq, Structural)]
pub enum Class {
    /// A character that separates the segments of a raw query.
    Space,
    /// Any other character.
    Solid,
    /// The ASCII space, which separates the terms of a normalised query.
    Blank,
    /// What a quote may hold: anything but `"`.
    Quoted,
    /// What a word may hold: anything but the ASCII space, `(`, `)` and `"`.
    Atom,
    /// What a key or a value may hold: the characters of a word but `=`.
    Side,
    /// An ASCII decimal digit.
    Digit,
    /// The character `#`.
    Hash,
}

/// The characters that separate segments: the ASCII space, tab and newline,
/// next line, the no-break space, the general-punctuation spaces from en quad
/// to hair space, the line and paragraph separators, the narrow no-break
/// space, the medium mathematical space and the ideographic space.
pub open spec fn whitespace(c: char) -> bool {
    ||| c == ' '
    ||| c == '\t'
    ||| c == '\n'
    ||| c == '\u{85}'
    ||| c == '\u{a0}'
    ||| c == '\u{2000}'
    ||| c == '\u{2001}'
    ||| c == '\u{2002}'
    ||| c == '\u{2003}'
    ||| c == '\u{2004}'
    ||| c == '\u{2005}'
    ||| c == '\u{2006}'
    ||| c == '\u{2007}'
    ||| c == '\u{2008}'
    ||| c == '\u{2009}'
    ||| c == '\u{200a}'
    ||| c == '\u{2028}'
    ||| c == '\u{2029}'
    ||| c == '\u{202f}'
    ||| c == '\u{205f}'
    ||| c == '\u{3000}'
}

/// The characters that end a word: `(`, `)` and `"`.
pub open spec fn delimiter(c: char) -> bool {
    c == '(' || c == ')' || c == '"'
}

/// The ASCII decimal digits.
pub open spec fn digit(c: char) -> bool {
    '0' <= c <= '9'
}

/// Whether `c` belongs to `class`.
pub open spec fn member(class: Class, c: char) -> bool {
    match class {
        Class::Space => whitespace(c),
        Class::Solid => !whitespace(c),
        Class::Blank => c == ' ',
        Class::Quoted => c != '"',
        Class::Atom => c != ' ' && !delimiter(c),
        Class::Side => c != ' ' && !delimiter(c) && c != '=',
        Class::Digit => digit(c),
        Class::Hash => c == '#',
    }
}

/// Where the run of `class` that starts at `i` ends: the first index from
/// `i` on whose character is outside the class, or the length of `s` if
/// there is none. An index outside `s` is its own end.
pub open spec fn run_end(s: Seq<char>, i: int, class: Class) -> int
    decreases s.len() - i,
{
    if 0 <= i < s.len() && member(class, s[i]) {
        run_end(s, i + 1, class)
    } else {
        i
    }
}

/// A run lies inside the text, holds only characters of its class, and
/// stops at the end of the text or before a character outside the class.
pub proof fn run_end_bounds(s: Seq<char>, i: int, class: Class)
    requires
        0 <= i <= s.len(),
    ensures
        i <= run_end(s, i, class) <= s.len(),
        forall|k: int| i <= k < run_end(s, i, class) ==> member(class, #[trigger] s[k]),
        run_end(s, i, class) < s.len() ==> !member(class, s[run_end(s, i, class)]),
    decreases s.len() - i,
{
    if i < s.len() && member(class, s[i]) {
        run_end_bounds(s, i + 1, class);
    }
}

/// An index that a run reaches without leaving its class, and at which it
/// must stop, is the end of the run.
pub proof fn run_end_is(s: Seq<char>, i: int, end: int, class: Class)
    requires
        0 <= i <= end <= s.len(),
        forall|k: int| i <= k < end ==> member(class, #[trigger] s[k]),
        end < s.len() ==> !member(class, s[end]),
    ensures
        run_end(s, i, class) == end,
    decreases end - i,
{
    if i < end {
        run_end_is(s, i + 1, end, class);
    }
}

/// A run in the second of two texts ends where it ends in that text alone.
pub proof fn run_end_shift(u: Seq<char>, v: Seq<char>, i: int, class: Class)
    requires
        0 <= i <= v.len(),
    ensures
        run_end(u + v, u.len() + i, class) == u.len() + run_end(v, i, class),
{
    let s = u + v;
    let n = u.len() as int;
    let end = run_end(v, i, class);
    run_end_bounds(v, i, class);
    assert forall|k: int| n + i <= k < n + end implies member(class, #[trigger] s[k]) by {
        assert(s[k] == v[k - n]);
    }
    if end < v.len() {
        assert(s[n + end] == v[end]);
    }
    run_end_is(s, n + i, n + end, class);
}

/// A run in the first of two texts ends where it ends in that text alone,
/// unless it reaches the end of that text: then it goes on into the second.
pub proof fn run_end_prefix(u: Seq<char>, v: Seq<char>, i: int, class: Class)
    requires
        0 <= i <= u.len(),
    ensures
        run_end(u, i, class) < u.len() ==> run_end(u + v, i, class) == run_end(u, i, class),
        run_end(u, i, class) == u.len() ==> run_end(u + v, i, class) == u.len() + run_end(
            v,
            0,
            class,
        ),
{
    let s = u + v;
    let n = u.len() as int;
    let end = run_end(u, i, class);
    run_end_bounds(u, i, class);
    if end < n {
        assert forall|k: int| i <= k < end implies member(class, #[trigger] s[k]) by {
            assert(s[k] == u[k]);
        }
        assert(s[end] == u[end]);
        run_end_is(s, i, end, class);
    } else {
        let more = run_end(v, 0, class);
        run_end_bounds(v, 0, class);
        assert forall|k: int| i <= k < n + more implies member(class, #[trigger] s[k]) by {
            if k < n {
                assert(s[k] == u[k]);
            } else {
                assert(s[k] == v[k - n]);
            }
        }
        if more < v.len() {
            assert(s[n + more] == v[more]);
        }
        run_end_is(s, i, n + more, class);
    }
}

/// Whether `c` belongs to `class`.
pub fn is_member(class: Class, c: char) -> (b: bool)
    ensures
        b == member(class, c),
{
    match class {
        Class::Space => is_whitespace(c),
        Class::Solid => !is_whitespace(c),
        Class::Blank => c == ' ',
        Class::Quoted => c != '"',
        Class::Atom => c != ' ' && c != '(' && c != ')' && c != '"',
        Class::Side => c != ' ' && c != '(' && c != ')' && c != '"' && c != '=',
        Class::Digit => '0' <= c && c <= '9',
        Class::Hash => c == '#',
    }
}

/// Whether `c` separates the segments of a raw query.
pub fn is_whitespace(c: char) -> (b: bool)
    ensures
        b == whitespace(c),
{
    c == ' ' || c == '\t' || c == '\n' || c == '\u{85}' || c == '\u{a0}' || ('\u{2000}' <= c && c
        <= '\u{200a}') || c == '\u{2028}' || c == '\u{2029}' || c == '\u{202f}' || c == '\u{205f}'
        || c == '\u{3000}'
}

/// The end of the run of `class` that starts at `from`.
pub fn skip_run(chars: &Vec<char>, from: usize, class: Class) -> (end: usize)
    requires
        from <= chars.len(),
    ensures
        end == run_end(chars@, from as int, class),
        from <= end <= chars.len(),
{
    let mut i: usize = from;
    while i < chars.len() && is_member(class, chars[i])
        invariant
            from <= i <= chars.len(),
            run_end(chars@, from as int, class) == run_end(chars@, i as int, class),
        decreases chars.len() - i,
    {
        i += 1;
    }
    i
}

/// The characters of `text`, in order.
pub fn chars_of(text: &str) -> (chars: Vec<char>)
    ensures
        chars@ == text@,
{
    let mut chars: Vec<char> = Vec::new();
    for c in it: text.chars()
        invariant
            it.seq() == text@,
            chars@ == text@.take(it.index() as int),
    {
        chars.push(c);
    }
    chars
}

/// `String::push` appends one character to the end of the string and leaves
/// the characters before it as they were.
pub assume_specification[ String::push ](string: &mut String, c: char)
    ensures
        final(string)@ == old(string)@.push(c),
;

/// The string that holds the characters `chars[from..to]`.
pub fn string_of(chars: &Vec<char>, from: usize, to: usize) -> (text: String)
    requires
        from <= to <= chars.len(),
    ensures
        text@ == chars@.subrange(from as int, to as int),
{
    let mut text = String::new();
    let mut i: usize = from;
    while i < to
        invariant
            from <= i <= to <= chars.len(),
            text@ == chars@.subrange(from as int, i as int),
        decreases to - i,
    {
        text.push(chars[i]);
        i += 1;
    }
    text
}

} // verus!

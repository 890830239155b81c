//! What holds of canonical text.

use vstd::prelude::*;
use crate::parse::normalise::{
    canonical,
    folded,
    folded_segment,
    joined,
    lowercase,
    normalised,
    segments,
    segments_from,
};
use crate::parse::text::{
    run_end,
    run_end_bounds,
    run_end_is,
    run_end_prefix,
    run_end_shift,
    whitespace,
    Class,
};

verus! {

/// Whether a text is fit to be a segment: not empty and free of whitespace.
pub open spec fn solid(part: Seq<char>) -> bool {
    part.len() > 0 && forall|i: int| 0 <= i < part.len() ==> !whitespace(#[trigger] part[i])
}

/// Whether every text of a sequence is fit to be a segment.
pub open spec fn all_solid(parts: Seq<Seq<char>>) -> bool {
    forall|k: int| 0 <= k < parts.len() ==> solid(#[trigger] parts[k])
}

/// Whether all of a text is whitespace.
pub open spec fn blank(text: Seq<char>) -> bool {
    forall|i: int| 0 <= i < text.len() ==> whitespace(#[trigger] text[i])
}

/// The segments of the second of two texts do not depend on the first.
pub proof fn segments_shift(u: Seq<char>, v: Seq<char>, i: int)
    requires
        0 <= i <= v.len(),
    ensures
        segments_from(u + v, u.len() + i) == segments_from(v, i),
    decreases v.len() - i,
{
    let s = u + v;
    let n = u.len() as int;
    let a = run_end(v, i, Class::Space);
    run_end_bounds(v, i, Class::Space);
    run_end_shift(u, v, i, Class::Space);
    let b = run_end(v, a, Class::Solid);
    run_end_bounds(v, a, Class::Solid);
    run_end_shift(u, v, a, Class::Solid);
    if a < b {
        segments_shift(u, v, b);
        assert(s.subrange(n + a, n + b) =~= v.subrange(a, b));
    }
}

/// Where no segment lies across the place at which two texts meet, the
/// segments of the two together are those of the first from `i` on and then
/// those of the second.
proof fn segments_cut_from(u: Seq<char>, v: Seq<char>, i: int)
    requires
        0 <= i <= u.len(),
        u.len() == 0 || whitespace(u.last()) || v.len() == 0 || whitespace(v[0]),
    ensures
        segments_from(u + v, i) == segments_from(u, i) + segments(v),
    decreases u.len() - i,
{
    let s = u + v;
    let n = u.len() as int;
    let a = run_end(u, i, Class::Space);
    run_end_bounds(u, i, Class::Space);
    run_end_prefix(u, v, i, Class::Space);
    segments_shift(u, v, 0);
    if a == n {
        run_end_shift(u, v, 0, Class::Space);
        assert(run_end(u, n, Class::Solid) == n);
        assert(segments_from(u, i) =~= Seq::<Seq<char>>::empty());
        assert(run_end(s, i, Class::Space) == run_end(s, n, Class::Space));
        assert(segments_from(s, i) == segments_from(s, n));
        assert(segments_from(u, i) + segments(v) =~= segments(v));
    } else {
        let b = run_end(u, a, Class::Solid);
        run_end_bounds(u, a, Class::Solid);
        run_end_prefix(u, v, a, Class::Solid);
        assert(a < b);
        if b == n {
            assert(!whitespace(u[n - 1]));
            if v.len() > 0 {
                assert(run_end(v, 0, Class::Solid) == 0);
            }
        }
        assert(run_end(s, a, Class::Solid) == b);
        assert(s.subrange(a, b) =~= u.subrange(a, b));
        segments_cut_from(u, v, b);
        assert(segments_from(s, i) == seq![u.subrange(a, b)] + segments_from(s, b));
        assert(seq![u.subrange(a, b)] + (segments_from(u, b) + segments(v)) =~= (seq![
            u.subrange(a, b),
        ] + segments_from(u, b)) + segments(v));
    }
}

/// Where the first of two texts ends in whitespace or is empty, or the
/// second starts with whitespace or is empty, the segments of the two
/// together are those of the first and then those of the second.
pub proof fn segments_cut(u: Seq<char>, v: Seq<char>)
    requires
        u.len() == 0 || whitespace(u.last()) || v.len() == 0 || whitespace(v[0]),
    ensures
        segments(u + v) == segments(u) + segments(v),
{
    segments_cut_from(u, v, 0);
}

/// A text that is fit to be a segment is its own and only segment.
pub proof fn segments_of_solid(part: Seq<char>)
    requires
        solid(part),
    ensures
        segments(part) == seq![part],
{
    let n = part.len() as int;
    run_end_is(part, 0, 0, Class::Space);
    run_end_is(part, 0, n, Class::Solid);
    run_end_is(part, n, n, Class::Space);
    run_end_is(part, n, n, Class::Solid);
    assert(part.subrange(0, n) =~= part);
    assert(segments_from(part, n) =~= Seq::<Seq<char>>::empty());
    assert(seq![part] + Seq::<Seq<char>>::empty() =~= seq![part]);
}

/// A text that is all whitespace has no segments.
pub proof fn segments_of_blank(text: Seq<char>)
    requires
        blank(text),
    ensures
        segments(text) == Seq::<Seq<char>>::empty(),
{
    let n = text.len() as int;
    run_end_is(text, 0, n, Class::Space);
    run_end_is(text, n, n, Class::Solid);
}

/// Every segment of a text is fit to be one.
pub proof fn segments_are_solid(s: Seq<char>, i: int)
    requires
        0 <= i <= s.len(),
    ensures
        all_solid(segments_from(s, i)),
    decreases s.len() - i,
{
    let a = run_end(s, i, Class::Space);
    run_end_bounds(s, i, Class::Space);
    let b = run_end(s, a, Class::Solid);
    run_end_bounds(s, a, Class::Solid);
    if a < b {
        segments_are_solid(s, b);
        let part = s.subrange(a, b);
        assert forall|k: int| 0 <= k < part.len() implies !whitespace(#[trigger] part[k]) by {
            assert(part[k] == s[a + k]);
        }
        let all = segments_from(s, i);
        assert forall|k: int| 0 <= k < all.len() implies solid(#[trigger] all[k]) by {
            if k > 0 {
                assert(all[k] == segments_from(s, b)[k - 1]);
            }
        }
    }
}

/// Whether a text is in canonical punctuation: every character is what the
/// table writes it as.
pub open spec fn plain(part: Seq<char>) -> bool {
    forall|i: int| 0 <= i < part.len() ==> folded(#[trigger] part[i]) == part[i]
}

/// A segment in canonical punctuation is still fit to be a segment, and
/// is in canonical punctuation: what the table writes is no whitespace, and
/// the table writes it as itself.
pub proof fn folded_segment_facts(part: Seq<char>)
    requires
        solid(part),
    ensures
        solid(folded_segment(part)),
        plain(folded_segment(part)),
{
    let q = folded_segment(part);
    assert forall|i: int| 0 <= i < q.len() implies !whitespace(#[trigger] q[i]) && folded(q[i])
        == q[i] by {
        assert(q[i] == folded(part[i]));
        assert(!whitespace(part[i]));
    }
}

/// Folding changes nothing in a text that is in canonical punctuation.
pub proof fn folded_segment_of_plain(part: Seq<char>)
    requires
        plain(part),
    ensures
        folded_segment(part) == part,
{
    assert(folded_segment(part) =~= part);
}

/// Texts that are fit to be segments, joined, are not empty unless there
/// are none of them.
pub proof fn joined_is_empty(parts: Seq<Seq<char>>)
    requires
        all_solid(parts),
    ensures
        joined(parts).len() == 0 <==> parts.len() == 0,
    decreases parts.len(),
{
    if parts.len() > 1 {
        assert(solid(parts[parts.len() - 1]));
    } else if parts.len() == 1 {
        assert(solid(parts[0]));
    }
}

/// A space and a text that is fit to be a segment, put behind a text, add
/// that segment to the segments of the text.
proof fn segments_of_appended(left: Seq<char>, last: Seq<char>)
    requires
        solid(last),
    ensures
        segments(left + seq![' '] + last) == segments(left).push(last),
{
    let gap = seq![' '];
    assert(left + gap + last =~= left + (gap + last));
    assert((gap + last)[0] == ' ');
    assert(gap.last() == ' ');
    assert(segments(left + (gap + last)) == segments(left) + segments(gap + last)) by {
        segments_cut(left, gap + last);
    }
    assert(segments(gap + last) == segments(gap) + segments(last)) by {
        segments_cut(gap, last);
    }
    assert(segments(gap) == Seq::<Seq<char>>::empty()) by {
        segments_of_blank(gap);
    }
    assert(segments(last) == seq![last]) by {
        segments_of_solid(last);
    }
    assert(segments(left) + (Seq::<Seq<char>>::empty() + seq![last]) =~= segments(left).push(
        last,
    ));
}

/// Texts that are fit to be segments are the segments of what joining them
/// gives.
pub proof fn segments_of_joined(parts: Seq<Seq<char>>)
    requires
        all_solid(parts),
    ensures
        segments(joined(parts)) == parts,
    decreases parts.len(),
{
    if parts.len() == 0 {
        segments_of_blank(Seq::<char>::empty());
        assert(parts =~= Seq::<Seq<char>>::empty());
    } else if parts.len() == 1 {
        assert(solid(parts[0]));
        segments_of_solid(parts[0]);
        assert(parts =~= seq![parts[0]]);
    } else {
        let init = parts.drop_last();
        let last = parts.last();
        assert(solid(last));
        assert forall|k: int| 0 <= k < init.len() implies solid(#[trigger] init[k]) by {
            assert(init[k] == parts[k]);
        }
        segments_of_joined(init);
        segments_of_appended(joined(init), last);
        assert(init.push(last) =~= parts);
    }
}

/// What two canonical texts make when a space is put between them: one of
/// them alone where the other is empty.
pub open spec fn glued(left: Seq<char>, right: Seq<char>) -> Seq<char> {
    if left.len() == 0 {
        right
    } else if right.len() == 0 {
        left
    } else {
        left + seq![' '] + right
    }
}

/// Joining two sequences of parts, one after the other, glues what joining
/// each of them gives.
pub proof fn joined_concat(left: Seq<Seq<char>>, right: Seq<Seq<char>>)
    requires
        all_solid(left),
        all_solid(right),
    ensures
        joined(left + right) == glued(joined(left), joined(right)),
    decreases right.len(),
{
    joined_is_empty(left);
    joined_is_empty(right);
    if right.len() == 0 {
        assert(left + right =~= left);
    } else if left.len() == 0 {
        assert(left + right =~= right);
    } else {
        let init = right.drop_last();
        let last = right.last();
        assert forall|k: int| 0 <= k < init.len() implies solid(#[trigger] init[k]) by {
            assert(init[k] == right[k]);
        }
        joined_concat(left, init);
        joined_is_empty(init);
        assert((left + right).drop_last() =~= left + init);
        assert((left + right).last() == last);
        if init.len() == 0 {
            assert(right =~= seq![last]);
            assert(left + init =~= left);
        } else {
            assert(joined(left) + seq![' '] + joined(init) + seq![' '] + last =~= joined(left)
                + seq![' '] + (joined(init) + seq![' '] + last));
        }
    }
}

/// The segments of a text, each in canonical punctuation.
pub open spec fn canonical_parts(s: Seq<char>) -> Seq<Seq<char>> {
    segments(s).map_values(|part: Seq<char>| folded_segment(part))
}

/// The parts of a canonical text are fit to be segments and in canonical
/// punctuation.
pub proof fn canonical_parts_facts(s: Seq<char>)
    ensures
        canonical(s) == joined(canonical_parts(s)),
        all_solid(canonical_parts(s)),
        forall|k: int| 0 <= k < canonical_parts(s).len() ==> plain(#[trigger] canonical_parts(s)[k]),
{
    let parts = segments(s);
    let done = canonical_parts(s);
    segments_are_solid(s, 0);
    assert forall|k: int| 0 <= k < done.len() implies solid(#[trigger] done[k]) && plain(
        done[k],
    ) by {
        assert(solid(parts[k]));
        folded_segment_facts(parts[k]);
    }
}

/// Bringing a canonical text into canonical form changes nothing.
pub proof fn canonical_idempotent(s: Seq<char>)
    ensures
        canonical(canonical(s)) == canonical(s),
{
    let done = canonical_parts(s);
    canonical_parts_facts(s);
    segments_of_joined(done);
    let again = canonical_parts(canonical(s));
    assert(again =~= done) by {
        assert forall|k: int| 0 <= k < done.len() implies again[k] == done[k] by {
            assert(plain(done[k]));
            folded_segment_of_plain(done[k]);
        }
    }
}

/// Normalising a normalised query changes nothing, given that lower-casing
/// the normalised query changes nothing.
pub proof fn normalise_idempotent(input: Seq<char>)
    ensures
        lowercase(normalised(input)) == normalised(input) ==> normalised(normalised(input))
            == normalised(input),
{
    canonical_idempotent(lowercase(input));
}

/// A run of whitespace between two texts counts as one space between their
/// canonical forms, and as nothing at either end.
pub proof fn whitespace_collapses(before: Seq<char>, gap: Seq<char>, after: Seq<char>)
    requires
        gap.len() > 0,
        blank(gap),
    ensures
        canonical(before + gap + after) == glued(canonical(before), canonical(after)),
{
    let f = |part: Seq<char>| folded_segment(part);
    assert(whitespace(gap[0]));
    assert(whitespace(gap.last()));
    assert(before + gap + after =~= before + (gap + after));
    assert((gap + after)[0] == gap[0]);
    segments_cut(before, gap + after);
    segments_cut(gap, after);
    segments_of_blank(gap);
    assert(segments(before + gap + after) =~= segments(before) + segments(after));
    assert((segments(before) + segments(after)).map_values(f) =~= segments(before).map_values(f)
        + segments(after).map_values(f));
    canonical_parts_facts(before);
    canonical_parts_facts(after);
    joined_concat(canonical_parts(before), canonical_parts(after));
}

/// One whitespace character, or a run of them, between two `x` gives
/// `x x`.
pub proof fn whitespace_between_words(gap: Seq<char>)
    requires
        gap.len() > 0,
        blank(gap),
    ensures
        canonical(seq!['x'] + gap + seq!['x']) == seq!['x', ' ', 'x'],
{
    whitespace_collapses(seq!['x'], gap, seq!['x']);
    canonical_of_one('x');
    assert(seq!['x'] + seq![' '] + seq!['x'] =~= seq!['x', ' ', 'x']);
}

/// The canonical form of one character that is not whitespace is what the
/// table writes it as.
pub proof fn canonical_of_one(c: char)
    requires
        !whitespace(c),
    ensures
        canonical(seq![c]) == seq![folded(c)],
{
    let part = seq![c];
    assert(solid(part));
    segments_of_solid(part);
    assert(folded_segment(part) =~= seq![folded(c)]);
    assert(canonical_parts(part) =~= seq![seq![folded(c)]]);
}

/// The ASCII vocabulary of canonical text: the space between segments and
/// the six marks that the table writes.
pub open spec fn mark(c: char) -> bool {
    c == ' ' || c == '"' || c == '\'' || c == '-' || c == '(' || c == ')' || c == '='
}

/// Whether every character of `text` is a character of `source` or one of
/// the ASCII marks.
pub open spec fn drawn_from(text: Seq<char>, source: Seq<char>) -> bool {
    forall|i: int| 0 <= i < text.len() ==> source.contains(#[trigger] text[i]) || mark(text[i])
}

/// Every segment of a text holds characters of the text only.
proof fn segments_drawn(s: Seq<char>, i: int)
    requires
        0 <= i <= s.len(),
    ensures
        forall|k: int|
            0 <= k < segments_from(s, i).len() ==> drawn_from(#[trigger] segments_from(s, i)[k], s),
    decreases s.len() - i,
{
    let a = run_end(s, i, Class::Space);
    run_end_bounds(s, i, Class::Space);
    let b = run_end(s, a, Class::Solid);
    run_end_bounds(s, a, Class::Solid);
    if a < b {
        segments_drawn(s, b);
        let part = s.subrange(a, b);
        assert forall|k: int| 0 <= k < part.len() implies s.contains(#[trigger] part[k]) by {
            assert(part[k] == s[a + k]);
        }
        let all = segments_from(s, i);
        assert forall|k: int| 0 <= k < all.len() implies drawn_from(#[trigger] all[k], s) by {
            if k > 0 {
                assert(all[k] == segments_from(s, b)[k - 1]);
            }
        }
    }
}

/// Joining parts adds nothing but spaces.
proof fn joined_drawn(parts: Seq<Seq<char>>, source: Seq<char>)
    requires
        forall|k: int| 0 <= k < parts.len() ==> drawn_from(#[trigger] parts[k], source),
    ensures
        drawn_from(joined(parts), source),
    decreases parts.len(),
{
    if parts.len() == 1 {
        assert(drawn_from(parts[0], source));
    } else if parts.len() > 1 {
        let init = parts.drop_last();
        assert forall|k: int| 0 <= k < init.len() implies drawn_from(
            #[trigger] init[k],
            source,
        ) by {
            assert(init[k] == parts[k]);
        }
        joined_drawn(init, source);
        assert(drawn_from(parts.last(), source));
    }
}

/// Canonical form adds no character but the ASCII marks: every character
/// of the canonical form of a text is a character of the text or a mark.
pub proof fn canonical_adds_marks_only(s: Seq<char>)
    ensures
        drawn_from(canonical(s), s),
{
    let parts = segments(s);
    let done = canonical_parts(s);
    segments_drawn(s, 0);
    assert forall|k: int| 0 <= k < done.len() implies drawn_from(#[trigger] done[k], s) by {
        let part = parts[k];
        assert(drawn_from(part, s));
        assert forall|i: int| 0 <= i < done[k].len() implies s.contains(#[trigger] done[k][i])
            || mark(done[k][i]) by {
            assert(done[k][i] == folded(part[i]));
            assert(s.contains(part[i]) || mark(part[i]));
        }
    }
    joined_drawn(done, s);
}

/// Normalising adds no letter to the lower-cased query: every character of
/// a normalised query is a character of the lower-cased query or an ASCII
/// mark.
pub proof fn normalised_adds_marks_only(input: Seq<char>)
    ensures
        drawn_from(normalised(input), lowercase(input)),
{
    canonical_adds_marks_only(lowercase(input));
}

/// Whether a text is single-spaced and in canonical punctuation: its only
/// whitespace is the ASCII space, which stands between two characters that
/// are not whitespace; and every character is what the table writes it as.
pub open spec fn tidy(r: Seq<char>) -> bool {
    &&& plain(r)
    &&& forall|i: int|
        0 <= i < r.len() && whitespace(#[trigger] r[i]) ==> r[i] == ' ' && 0 < i < r.len() - 1
            && !whitespace(r[i - 1]) && !whitespace(r[i + 1])
}

/// Parts that are segments in canonical punctuation make a tidy text.
proof fn joined_tidy(parts: Seq<Seq<char>>)
    requires
        all_solid(parts),
        forall|k: int| 0 <= k < parts.len() ==> plain(#[trigger] parts[k]),
    ensures
        tidy(joined(parts)),
    decreases parts.len(),
{
    if parts.len() == 1 {
        assert(solid(parts[0]) && plain(parts[0]));
    } else if parts.len() > 1 {
        let init = parts.drop_last();
        let last = parts.last();
        assert forall|k: int| 0 <= k < init.len() implies solid(#[trigger] init[k]) && plain(
            init[k],
        ) by {
            assert(init[k] == parts[k]);
        }
        joined_tidy(init);
        joined_is_empty(init);
        assert(solid(last) && plain(last));
        let left = joined(init);
        let r = joined(parts);
        let n = left.len() as int;
        assert(r =~= left + seq![' '] + last);
        assert forall|i: int| 0 <= i < r.len() implies folded(#[trigger] r[i]) == r[i] by {
            if i < n {
                assert(r[i] == left[i]);
            } else if i > n {
                assert(r[i] == last[i - n - 1]);
            }
        }
        assert forall|i: int| 0 <= i < r.len() && whitespace(#[trigger] r[i]) implies r[i] == ' '
            && 0 < i < r.len() - 1 && !whitespace(r[i - 1]) && !whitespace(r[i + 1]) by {
            if i < n {
                assert(r[i] == left[i]);
                assert(r[i - 1] == left[i - 1]);
                assert(r[i + 1] == left[i + 1]);
            } else if i > n {
                assert(r[i] == last[i - n - 1]);
            } else {
                assert(r[n - 1] == left[n - 1]);
                assert(r[n + 1] == last[0]);
                if whitespace(left[n - 1]) {
                    assert(n - 1 < left.len() - 1);
                }
            }
        }
    }
}

/// The canonical form of a text is single-spaced, without a space at
/// either end, and in canonical punctuation.
pub proof fn canonical_is_tidy(s: Seq<char>)
    ensures
        tidy(canonical(s)),
{
    canonical_parts_facts(s);
    joined_tidy(canonical_parts(s));
}

/// In a tidy text, joining the segments from the start of a segment on
/// gives back the text from there on.
proof fn tidy_joins_back(r: Seq<char>, i: int)
    requires
        tidy(r),
        0 <= i < r.len(),
        i == 0 || r[i - 1] == ' ',
    ensures
        all_solid(segments_from(r, i)),
        joined(segments_from(r, i)) == r.skip(i),
    decreases r.len() - i,
{
    segments_are_solid(r, i);
    assert(!whitespace(r[i])) by {
        if i > 0 {
            assert(whitespace(r[i - 1]));
        }
    }
    run_end_is(r, i, i, Class::Space);
    let b = run_end(r, i, Class::Solid);
    run_end_bounds(r, i, Class::Solid);
    let part = r.subrange(i, b);
    if b == r.len() {
        run_end_is(r, b, b, Class::Space);
        run_end_is(r, b, b, Class::Solid);
        assert(segments_from(r, b) =~= Seq::<Seq<char>>::empty());
        assert(segments_from(r, i) =~= seq![part]);
        assert(part =~= r.skip(i));
    } else {
        assert(whitespace(r[b]));
        assert(!whitespace(r[b + 1]));
        run_end_is(r, b, b + 1, Class::Space);
        run_end_is(r, b + 1, b + 1, Class::Space);
        assert(segments_from(r, b) == segments_from(r, b + 1));
        tidy_joins_back(r, b + 1);
        let rest = segments_from(r, b + 1);
        assert(solid(part)) by {
            assert(segments_from(r, i)[0] == part);
        }
        assert(all_solid(seq![part])) by {
            assert forall|k: int| 0 <= k < seq![part].len() implies solid(
                #[trigger] seq![part][k],
            ) by {}
        }
        joined_concat(seq![part], rest);
        joined_is_empty(rest);
        assert(rest.len() > 0) by {
            assert(r.skip(b + 1).len() > 0);
        }
        assert(joined(seq![part]) == part);
        assert(part + seq![' '] + r.skip(b + 1) =~= r.skip(i));
    }
}

/// A stretch of a text in canonical punctuation is in canonical
/// punctuation.
proof fn plain_stretch(r: Seq<char>, a: int, b: int)
    requires
        plain(r),
        0 <= a <= b <= r.len(),
    ensures
        plain(r.subrange(a, b)),
{
    let part = r.subrange(a, b);
    assert forall|i: int| 0 <= i < part.len() implies folded(#[trigger] part[i]) == part[i] by {
        assert(part[i] == r[a + i]);
    }
}

/// Every segment of a text in canonical punctuation is in canonical
/// punctuation.
proof fn segments_plain(r: Seq<char>, i: int)
    requires
        plain(r),
        0 <= i <= r.len(),
    ensures
        forall|k: int| 0 <= k < segments_from(r, i).len() ==> plain(#[trigger] segments_from(r, i)[k]),
    decreases r.len() - i,
{
    let a = run_end(r, i, Class::Space);
    run_end_bounds(r, i, Class::Space);
    let b = run_end(r, a, Class::Solid);
    run_end_bounds(r, a, Class::Solid);
    if a < b {
        segments_plain(r, b);
        plain_stretch(r, a, b);
        let all = segments_from(r, i);
        assert forall|k: int| 0 <= k < all.len() implies plain(#[trigger] all[k]) by {
            if k > 0 {
                assert(all[k] == segments_from(r, b)[k - 1]);
            }
        }
    }
}

/// A tidy text is its own canonical form. With `canonical_is_tidy`: the
/// texts that canonical form leaves as they are, are the tidy ones.
pub proof fn canonical_of_tidy(r: Seq<char>)
    requires
        tidy(r),
    ensures
        canonical(r) == r,
{
    let parts = segments(r);
    segments_plain(r, 0);
    assert(canonical_parts(r) =~= parts) by {
        assert forall|k: int| 0 <= k < parts.len() implies canonical_parts(r)[k] == parts[k] by {
            folded_segment_of_plain(parts[k]);
        }
    }
    if r.len() == 0 {
        segments_of_blank(r);
    } else {
        tidy_joins_back(r, 0);
        assert(r.skip(0) =~= r);
    }
}

} // verus!

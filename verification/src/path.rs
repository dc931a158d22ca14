//! Dotted key paths.
//!
//! A header or a key such as `server.instances` names a place in a document by the
//! segments between its dots. Splitting is verbatim: nothing is trimmed, and an empty
//! text is one empty segment.

use vstd::prelude::*;
use crate::text::chars_of;

verus! {

/// No character of `s` is a dot.
pub open spec fn dot_free(s: Seq<char>) -> bool {
    forall|i: int| 0 <= i < s.len() ==> s[i] != '.'
}

/// Position `i` holds the first dot of `s`.
pub open spec fn is_first_dot(s: Seq<char>, i: int) -> bool {
    &&& 0 <= i < s.len()
    &&& s[i] == '.'
    &&& dot_free(s.take(i))
}

/// The position of the first dot of `s`, where it has one.
pub open spec fn first_dot(s: Seq<char>) -> int {
    choose|i: int| is_first_dot(s, i)
}

/// The segments of `s`: the text before its first dot, then the segments of what
/// follows that dot; a text without a dot is its own single segment.
pub open spec fn split_dots(s: Seq<char>) -> Seq<Seq<char>>
    decreases s.len(),
{
    if exists|i: int| is_first_dot(s, i) {
        let i = first_dot(s);
        seq![s.take(i)] + split_dots(s.skip(i + 1))
    } else {
        seq![s]
    }
}

/// The segments written out again with a dot between neighbours.
pub open spec fn join_dots(segments: Seq<Seq<char>>) -> Seq<char>
    decreases segments.len(),
{
    if segments.len() == 0 {
        Seq::empty()
    } else if segments.len() == 1 {
        segments[0]
    } else {
        segments[0] + seq!['.'] + join_dots(segments.skip(1))
    }
}

/// A text has at most one first dot.
pub proof fn lemma_first_dot_unique(s: Seq<char>, i: int, j: int)
    requires
        is_first_dot(s, i),
        is_first_dot(s, j),
    ensures
        i == j,
{
    if i < j {
        assert(s.take(j)[i] == s[i]);
    } else if j < i {
        assert(s.take(i)[j] == s[j]);
    }
}

/// A text without a dot is one segment.
pub proof fn lemma_split_dot_free(s: Seq<char>)
    requires
        dot_free(s),
    ensures
        split_dots(s) == seq![s],
{
    assert forall|i: int| !is_first_dot(s, i) by {}
}

/// A text whose first dot is at `i` splits into what stands before it and the
/// segments of what stands after it.
pub proof fn lemma_split_at_first_dot(s: Seq<char>, i: int)
    requires
        is_first_dot(s, i),
    ensures
        split_dots(s) == seq![s.take(i)] + split_dots(s.skip(i + 1)),
{
    lemma_first_dot_unique(s, i, first_dot(s));
}

/// Splitting never yields an empty path, and no segment holds a dot.
pub proof fn lemma_split_segments(s: Seq<char>)
    ensures
        split_dots(s).len() >= 1,
        forall|k: int| 0 <= k < split_dots(s).len() ==> dot_free(#[trigger] split_dots(s)[k]),
    decreases s.len(),
{
    if exists|i: int| is_first_dot(s, i) {
        let i = first_dot(s);
        lemma_split_segments(s.skip(i + 1));
    } else {
        assert forall|i: int| 0 <= i < s.len() implies s[i] != '.' by {
            lemma_no_first_dot(s, i);
        }
    }
}

/// A text that has no first dot has no dot up to any position.
proof fn lemma_no_first_dot(s: Seq<char>, i: int)
    requires
        forall|j: int| !is_first_dot(s, j),
        0 <= i < s.len(),
    ensures
        s[i] != '.',
    decreases i,
{
    if s[i] == '.' {
        assert forall|k: int| 0 <= k < s.take(i).len() implies s.take(i)[k] != '.' by {
            lemma_no_first_dot(s, k);
        }
        assert(is_first_dot(s, i));
    }
}

/// Joining the segments of a text with dots gives the text back.
pub proof fn lemma_join_split(s: Seq<char>)
    ensures
        join_dots(split_dots(s)) == s,
    decreases s.len(),
{
    if exists|i: int| is_first_dot(s, i) {
        let i = first_dot(s);
        let rest = split_dots(s.skip(i + 1));
        lemma_join_split(s.skip(i + 1));
        lemma_split_segments(s.skip(i + 1));
        let all = seq![s.take(i)] + rest;
        assert(all.skip(1) == rest);
        assert(all[0] == s.take(i));
        assert(join_dots(all) == s.take(i) + seq!['.'] + s.skip(i + 1));
        assert(s.take(i) + seq!['.'] + s.skip(i + 1) == s);
    } else {
        assert(seq![s][0] == s);
    }
}

/// Every dotted identifier resolves to the segments it was written from: splitting
/// the dot-joined text of one or more dot-free segments gives exactly those segments.
pub proof fn lemma_split_join(segments: Seq<Seq<char>>)
    requires
        segments.len() >= 1,
        forall|k: int| 0 <= k < segments.len() ==> dot_free(#[trigger] segments[k]),
    ensures
        split_dots(join_dots(segments)) == segments,
    decreases segments.len(),
{
    if segments.len() == 1 {
        lemma_split_dot_free(segments[0]);
        assert(seq![segments[0]] == segments);
    } else {
        let head = segments[0];
        let rest = segments.skip(1);
        let text = join_dots(segments);
        let i = head.len() as int;
        assert(text == head + seq!['.'] + join_dots(rest));
        assert(text.take(i) == head);
        assert(text.skip(i + 1) == join_dots(rest));
        assert(is_first_dot(text, i));
        lemma_split_at_first_dot(text, i);
        assert forall|k: int| 0 <= k < rest.len() implies dot_free(#[trigger] rest[k]) by {
            assert(rest[k] == segments[k + 1]);
        }
        lemma_split_join(rest);
        assert(seq![head] + rest == segments);
    }
}

/// The path that a dotted text names: its segments, in order and verbatim.
pub fn resolve_path<'a>(text: &'a str) -> (path: Vec<&'a str>)
    ensures
        path.deep_view() == split_dots(text@),
{
    let chars = chars_of(text);
    let mut path: Vec<&'a str> = Vec::new();
    let mut start: usize = 0;
    let mut i: usize = 0;
    proof {
        assert(path.deep_view() == Seq::<Seq<char>>::empty());
        assert(text@.skip(0) == text@);
    }
    while i < chars.len()
        invariant
            chars@ == text@,
            start <= i <= chars.len(),
            dot_free(text@.subrange(start as int, i as int)),
            split_dots(text@) == path.deep_view() + split_dots(text@.skip(start as int)),
        decreases chars.len() - i,
    {
        if chars[i] == '.' {
            let segment = text.substring_char(start, i);
            proof {
                let tail = text@.skip(start as int);
                assert(tail.take(i - start) == text@.subrange(start as int, i as int));
                assert(tail[i - start] == text@[i as int]);
                assert(is_first_dot(tail, i - start));
                lemma_split_at_first_dot(tail, i - start);
                assert(tail.skip(i - start + 1) == text@.skip(i + 1));
                assert(path.deep_view().push(segment@) + split_dots(text@.skip(i + 1))
                    == path.deep_view() + (seq![segment@] + split_dots(text@.skip(i + 1))));
            }
            let ghost before = path.deep_view();
            path.push(segment);
            assert(path.deep_view() == before.push(segment@));
            start = i + 1;
            assert(text@.subrange(start as int, start as int).len() == 0);
        } else {
            proof {
                let longer = text@.subrange(start as int, i + 1);
                assert forall|k: int| 0 <= k < longer.len() implies longer[k] != '.' by {
                    if k < i - start {
                        assert(text@.subrange(start as int, i as int)[k] == longer[k]);
                    }
                }
            }
        }
        i += 1;
    }
    let segment = text.substring_char(start, i);
    proof {
        assert(text@.skip(start as int) == text@.subrange(start as int, i as int));
        lemma_split_dot_free(text@.skip(start as int));
        assert(path.deep_view().push(segment@) == path.deep_view() + seq![segment@]);
    }
    let ghost before = path.deep_view();
    path.push(segment);
    assert(path.deep_view() == before.push(segment@));
    path
}

} // verus!

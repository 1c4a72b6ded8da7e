//! Slashes: what the segments of a path do not depend on.

use vstd::prelude::*;
use crate::segments::{
    first_slash, is_segment, lemma_first_slash, lemma_pieces_join, lemma_pieces_slash_free,
    lemma_segments_after_slashes, lemma_segments_cut, lemma_segments_slash_free, pieces, segments,
    separates, slash_free, slashes, spell, well_formed_segments,
};

verus! {

/// What `segments` yields is well-formed: no segment is empty or holds a slash.
pub proof fn law_segments_are_well_formed(s: Seq<char>)
    ensures
        well_formed_segments(segments(s)),
{
    let keep = |p: Seq<char>| is_segment(p);
    lemma_pieces_slash_free(s);
    assert forall|i: int| 0 <= i < segments(s).len() implies is_segment(#[trigger] segments(s)[i])
        && slash_free(segments(s)[i]) by {
        let seg = segments(s)[i];
        pieces(s).lemma_filter_contains_rev(keep, seg);
    }
}

/// The segments of two paths joined by a slash are the segments of the first
/// followed by those of the second.
pub proof fn law_join(a: Seq<char>, b: Seq<char>)
    ensures
        segments(a + seq!['/'] + b) == segments(a) + segments(b),
{
    lemma_pieces_join(a, b);
}

/// A slash more changes nothing where it stands at the start of a path, at
/// its end, or next to another slash.
pub proof fn law_extra_slash(a: Seq<char>, b: Seq<char>)
    requires
        a.len() == 0 || b.len() == 0 || a.last() == '/' || b[0] == '/',
    ensures
        segments(a + seq!['/'] + b) == segments(a + b),
{
    let none = Seq::<char>::empty();
    law_join(a, b);
    lemma_segments_slash_free(none);
    if a.len() == 0 {
        assert(a == none);
    } else if b.len() == 0 {
        assert(b == none);
    } else if a.last() == '/' {
        let front = a.drop_last();
        assert(a == front + seq!['/'] + none);
        law_join(front, none);
        law_join(front, b);
    } else {
        let back = b.drop_first();
        assert(b == none + seq!['/'] + back);
        law_join(none, back);
        assert(a + b == a + seq!['/'] + back);
        law_join(a, back);
    }
}

/// However many slashes stand before, between and after the segments of a
/// path, its segments are the same: repeated, leading and trailing slashes
/// are ignored. Registration and lookup read a key through its segments
/// only, so they cannot tell two such spellings apart.
pub proof fn law_slashes_are_ignored(segs: Seq<Seq<char>>, gaps: Seq<nat>)
    requires
        well_formed_segments(segs),
        separates(gaps, segs),
    ensures
        segments(spell(segs, gaps)) == segs,
    decreases segs.len(),
{
    if segs.len() == 0 {
        lemma_segments_after_slashes(gaps[0], Seq::empty());
        lemma_segments_slash_free(Seq::empty());
    } else {
        let first = segs[0];
        let rest = segs.drop_first();
        let rest_gaps = gaps.drop_first();
        let tail = spell(rest, rest_gaps);
        assert(slashes(gaps[0]) + first + tail == slashes(gaps[0]) + (first + tail));
        lemma_segments_after_slashes(gaps[0], first + tail);
        let k = first.len() as int;
        assert((first + tail).take(k) == first);
        if rest_gaps[0] == 0 {
            // Nothing follows the last segment.
            assert(rest.len() == 0);
            lemma_segments_slash_free(first);
        } else {
            let fewer = rest_gaps.update(0, (rest_gaps[0] - 1) as nat);
            assert(separates(fewer, rest)) by {
                assert forall|i: int| 0 < i < rest.len() implies fewer[i] >= 1 by {}
            }
            assert(tail == seq!['/'] + spell(rest, fewer)) by {
                if rest.len() > 0 {
                    assert(fewer.drop_first() == rest_gaps.drop_first());
                }
            }
            lemma_segments_cut(first + tail, k);
            assert((first + tail).skip(k + 1) == spell(rest, fewer));
            law_slashes_are_ignored(rest, fewer);
        }
    }
}

/// Every path is one of the spellings of its segments: the law above speaks
/// of all paths. The gaps of the path are returned.
pub proof fn law_every_path_is_a_spelling(s: Seq<char>) -> (gaps: Seq<nat>)
    ensures
        separates(gaps, segments(s)),
        spell(segments(s), gaps) == s,
    decreases s.len(),
{
    if s.len() == 0 {
        lemma_segments_slash_free(s);
        seq![0nat]
    } else if s[0] == '/' {
        let rest = s.drop_first();
        lemma_segments_cut(s, 0);
        let inner = law_every_path_is_a_spelling(rest);
        let gaps = inner.update(0, inner[0] + 1);
        assert(gaps.drop_first() =~= inner.drop_first());
        assert(spell(segments(s), gaps) =~= seq!['/'] + spell(segments(rest), inner));
        gaps
    } else {
        lemma_first_slash(s);
        let k = first_slash(s);
        let first = s.take(k);
        if k == s.len() {
            assert(first == s);
            lemma_segments_slash_free(s);
            let gaps = seq![0nat, 0nat];
            assert(spell(segments(s), gaps) =~= s) by {
                reveal_with_fuel(spell, 2);
            }
            gaps
        } else {
            let rest = s.skip(k);
            lemma_segments_cut(s, k);
            lemma_segments_cut(rest, 0);
            assert(rest.skip(1) == s.skip(k + 1));
            let inner = law_every_path_is_a_spelling(rest);
            law_segments_are_well_formed(rest);
            let gaps = seq![0nat] + inner;
            assert(gaps.drop_first() =~= inner);
            assert(segments(s).drop_first() =~= segments(rest));
            gaps
        }
    }
}

} // verus!

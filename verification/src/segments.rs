//! Splitting a path into its non-empty, slash-delimited segments.
//!
//! A path is a sequence of characters. Cutting it at every `/` yields its
//! *pieces*; the *segments* are the pieces that are not empty. Leading,
//! trailing and repeated slashes therefore never show in the segments.

use vstd::prelude::*;
use vstd::std_specs::iter::IteratorSpec;

verus! {

/// No character of `s` is a slash.
pub open spec fn slash_free(s: Seq<char>) -> bool {
    forall|i: int| 0 <= i < s.len() ==> s[i] != '/'
}

/// The position of the first slash in `s`, or the length of `s` if it has none.
pub open spec fn first_slash(s: Seq<char>) -> int
    decreases s.len(),
{
    if s.len() == 0 || s[0] == '/' {
        0
    } else {
        1 + first_slash(s.drop_first())
    }
}

/// What lies between the slashes of `s`, empty pieces included: a path with
/// `k` slashes has `k + 1` pieces.
pub open spec fn pieces(s: Seq<char>) -> Seq<Seq<char>>
    decreases s.len(),
{
    let k = first_slash(s);
    if 0 <= k < s.len() {
        seq![s.take(k)] + pieces(s.skip(k + 1))
    } else {
        seq![s]
    }
}

/// A piece counts as a segment when it holds at least one character.
pub open spec fn is_segment(piece: Seq<char>) -> bool {
    piece.len() > 0
}

/// The segments of a path: its pieces, in order, without the empty ones.
pub open spec fn segments(s: Seq<char>) -> Seq<Seq<char>> {
    pieces(s).filter(|p: Seq<char>| is_segment(p))
}

/// Every element is a segment as `segments` yields them: not empty, no slash.
pub open spec fn well_formed_segments(segs: Seq<Seq<char>>) -> bool {
    forall|i: int| 0 <= i < segs.len() ==> is_segment(#[trigger] segs[i]) && slash_free(segs[i])
}

/// A segment that starts with a colon declares a capture.
pub open spec fn is_capture(seg: Seq<char>) -> bool {
    seg.len() > 0 && seg[0] == ':'
}

/// The parameter name that a capture segment declares: what follows the colon.
pub open spec fn capture_name(seg: Seq<char>) -> Seq<char> {
    seg.skip(1)
}

/// The character contents of a list of string slices.
pub open spec fn texts(v: Seq<&str>) -> Seq<Seq<char>> {
    v.map_values(|s: &str| s@)
}

/// Where the first slash is: in range, with no slash before it.
pub(crate) proof fn lemma_first_slash(s: Seq<char>)
    ensures
        0 <= first_slash(s) <= s.len(),
        slash_free(s.take(first_slash(s))),
        first_slash(s) < s.len() ==> s[first_slash(s)] == '/',
    decreases s.len(),
{
    if s.len() == 0 || s[0] == '/' {
    } else {
        let t = s.drop_first();
        lemma_first_slash(t);
        let k = first_slash(t);
        let head = s.take(k + 1);
        assert forall|i: int| 0 <= i < head.len() implies head[i] != '/' by {
            if i > 0 {
                assert(t.take(k)[i - 1] == s[i]);
            }
        }
    }
}

/// The first slash is where a slash stands with none before it.
pub(crate) proof fn lemma_first_slash_at(s: Seq<char>, k: int)
    requires
        0 <= k <= s.len(),
        slash_free(s.take(k)),
        k < s.len() ==> s[k] == '/',
    ensures
        first_slash(s) == k,
    decreases s.len(),
{
    if s.len() == 0 {
    } else if s[0] == '/' {
        if k > 0 {
            assert(s.take(k)[0] == '/');
        }
    } else {
        let t = s.drop_first();
        let head = t.take(k - 1);
        assert forall|i: int| 0 <= i < head.len() implies head[i] != '/' by {
            assert(s.take(k)[i + 1] == t[i]);
        }
        lemma_first_slash_at(t, k - 1);
    }
}

/// Cutting at a slash that has none before it.
pub(crate) proof fn lemma_segments_cut(s: Seq<char>, k: int)
    requires
        0 <= k < s.len(),
        slash_free(s.take(k)),
        s[k] == '/',
    ensures
        segments(s) == if k > 0 {
            seq![s.take(k)] + segments(s.skip(k + 1))
        } else {
            segments(s.skip(k + 1))
        },
{
    lemma_first_slash_at(s, k);
    let keep = |p: Seq<char>| is_segment(p);
    lemma_filter_one(s.take(k));
}

/// A path without a slash is one segment, or none if it is empty.
pub(crate) proof fn lemma_segments_slash_free(s: Seq<char>)
    requires
        slash_free(s),
    ensures
        segments(s) == if s.len() > 0 {
            seq![s]
        } else {
            Seq::<Seq<char>>::empty()
        },
{
    lemma_first_slash_at(s, s.len() as int);
    lemma_filter_one(s);
}

/// One piece alone is one segment, or none if it is empty.
proof fn lemma_filter_one(p: Seq<char>)
    ensures
        seq![p].filter(|q: Seq<char>| is_segment(q)) == if p.len() > 0 {
            seq![p]
        } else {
            Seq::<Seq<char>>::empty()
        },
{
    reveal_with_fuel(Seq::filter, 2);
}

/// No piece holds a slash.
pub(crate) proof fn lemma_pieces_slash_free(s: Seq<char>)
    ensures
        forall|i: int| 0 <= i < pieces(s).len() ==> slash_free(#[trigger] pieces(s)[i]),
    decreases s.len(),
{
    lemma_first_slash(s);
    let k = first_slash(s);
    if k < s.len() {
        let rest = pieces(s.skip(k + 1));
        lemma_pieces_slash_free(s.skip(k + 1));
        assert forall|i: int| 0 <= i < pieces(s).len() implies slash_free(
            #[trigger] pieces(s)[i],
        ) by {}
    } else {
        assert(s.take(k) == s);
    }
}

/// The pieces of two paths joined by a slash are the pieces of the first
/// followed by those of the second.
pub(crate) proof fn lemma_pieces_join(a: Seq<char>, b: Seq<char>)
    ensures
        pieces(a + seq!['/'] + b) == pieces(a) + pieces(b),
    decreases a.len(),
{
    let s = a + seq!['/'] + b;
    lemma_first_slash(a);
    let k = first_slash(a);
    assert(s.take(k) == a.take(k));
    lemma_first_slash_at(s, k);
    if k < a.len() {
        assert(s.skip(k + 1) == a.skip(k + 1) + seq!['/'] + b);
        lemma_pieces_join(a.skip(k + 1), b);
    } else {
        assert(a.take(k) == a);
        assert(s.skip(k + 1) == b);
    }
}

/// A run of `n` slashes.
pub open spec fn slashes(n: nat) -> Seq<char> {
    Seq::new(n, |i: int| '/')
}

/// Slashes in front of a path do not change its segments.
pub(crate) proof fn lemma_segments_after_slashes(n: nat, s: Seq<char>)
    ensures
        segments(slashes(n) + s) == segments(s),
    decreases n,
{
    if n == 0 {
    } else {
        let whole = slashes(n) + s;
        lemma_segments_cut(whole, 0);
        assert(whole.skip(1) == slashes((n - 1) as nat) + s);
        lemma_segments_after_slashes((n - 1) as nat, s);
    }
}

/// One way of writing a list of segments down as a path: `gaps[0]` slashes,
/// the first segment, `gaps[1]` slashes, the second segment, and so on, with
/// the last entry of `gaps` for the slashes after the last segment.
pub open spec fn spell(segs: Seq<Seq<char>>, gaps: Seq<nat>) -> Seq<char>
    decreases segs.len(),
{
    if segs.len() == 0 || gaps.len() == 0 {
        slashes(if gaps.len() > 0 { gaps[0] } else { 0 })
    } else {
        slashes(gaps[0]) + segs[0] + spell(segs.drop_first(), gaps.drop_first())
    }
}

/// There is a gap before, between and after the segments, and at least one
/// slash between two segments.
pub open spec fn separates(gaps: Seq<nat>, segs: Seq<Seq<char>>) -> bool {
    &&& gaps.len() == segs.len() + 1
    &&& forall|i: int| 0 < i < segs.len() ==> gaps[i] >= 1
}

/// Whether two string slices hold the same text.
pub(crate) fn str_eq(a: &str, b: &str) -> (r: bool)
    ensures
        r == (a@ == b@),
{
    let x = a.as_bytes();
    let y = b.as_bytes();
    proof {
        vstd::utf8::encode_utf8_decode_utf8(a@);
        vstd::utf8::encode_utf8_decode_utf8(b@);
    }
    if x.len() != y.len() {
        return false;
    }
    let mut i: usize = 0;
    while i < x.len()
        invariant
            i <= x.len() == y.len(),
            x@ == vstd::utf8::encode_utf8(a@),
            y@ == vstd::utf8::encode_utf8(b@),
            forall|j: int| 0 <= j < i ==> x@[j] == y@[j],
        decreases x.len() - i,
    {
        if x[i] != y[i] {
            return false;
        }
        i += 1;
    }
    assert(x@ =~= y@);
    true
}

/// Splits a path at its slashes and returns the segments, in order, as
/// slices of the path.
pub fn split_segments<'a>(key: &'a str) -> (out: Vec<&'a str>)
    ensures
        texts(out@) == segments(key@),
        well_formed_segments(texts(out@)),
{
    let n: usize = key.unicode_len();
    let mut out: Vec<&'a str> = Vec::new();
    let mut start: usize = 0;
    let mut i: usize = 0;
    let mut it = key.chars();
    while i < n
        invariant
            start <= i <= n == key@.len(),
            it.remaining() == key@.skip(i as int),
            slash_free(key@.subrange(start as int, i as int)),
            segments(key@) == texts(out@) + segments(key@.skip(start as int)),
            well_formed_segments(texts(out@)),
        decreases n - i,
    {
        let next = it.next();
        let c = next.unwrap();
        if c == '/' {
            let ghost rest = key@.skip(start as int);
            proof {
                assert(rest.take(i - start) == key@.subrange(start as int, i as int));
                assert(rest.skip(i - start + 1) == key@.skip(i + 1));
                lemma_segments_cut(rest, i - start);
            }
            if start < i {
                let seg = key.substring_char(start, i);
                let ghost before = texts(out@);
                out.push(seg);
                assert(texts(out@) =~= before.push(seg@));
            }
            start = i + 1;
        } else {
            let ghost run = key@.subrange(start as int, i + 1);
            assert forall|j: int| 0 <= j < run.len() implies run[j] != '/' by {}
        }
        i += 1;
    }
    proof {
        lemma_segments_slash_free(key@.skip(start as int));
    }
    if start < n {
        let seg = key.substring_char(start, n);
        out.push(seg);
    }
    out
}

} // verus!

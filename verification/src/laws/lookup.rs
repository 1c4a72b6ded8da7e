//! Lookup: which route decides, and what the match holds.

use vstd::prelude::*;
use crate::model::{
    Match, Node, Route, bindings, capture_names, captured_values, lemma_pattern_step, or_else,
    path_matches, pattern_path,
};
use crate::segments::{is_capture, is_segment, well_formed_segments};

verus! {

/// The trie of a new tree holds no route, and no lookup in it finds a match.
pub proof fn law_empty_trie<T>(path: Seq<Seq<char>>)
    ensures
        Node::<T>::empty().wf(),
        Node::<T>::empty().route(path) is None,
        Node::<T>::empty().lookup(path) is None,
{
}

/// For one segment a node has at most two candidates, the child labelled
/// with the segment and the wildcard child. Lookup tries them in the order
/// in which they were created, and falls back to the second when the first
/// yields no match for the whole rest of the path.
pub proof fn law_literal_and_wildcard<T>(t: Node<T>, above: nat, segs: Seq<Seq<char>>)
    requires
        t.wf_below(above),
        segs.len() > 0,
        is_segment(segs[0]),
    ensures
        t.lookup(segs) == if t.literal_stands_first(segs[0]) {
            or_else(t.via_literal(segs), t.via_wildcard(segs))
        } else {
            or_else(t.via_wildcard(segs), t.via_literal(segs))
        },
{
    let wildcard = Seq::<char>::empty();
    if t.has_child(segs[0]) {
        let l = t.child(segs[0]);
        if t.via_literal(segs) is Some {
            lemma_lookup_from_hit(t, segs, 0, l);
        }
    }
    if t.has_child(wildcard) {
        let w = t.child(wildcard);
        if t.via_wildcard(segs) is Some {
            lemma_lookup_from_hit(t, segs, 0, w);
        }
    }
    if t.lookup(segs) is Some {
        let i = lemma_lookup_from_first(t, segs, 0);
        if t.children[i].label != segs[0] {
            assert(t.children[i].label == wildcard);
        }
    }
}

/// A successful lookup returns the route at the first matching trie path:
/// the payload and parameter names registered there, with the segments that
/// the wildcards of that path stand for. The path is returned.
pub proof fn law_lookup_found<T>(t: Node<T>, segs: Seq<Seq<char>>) -> (path: Seq<Seq<char>>)
    requires
        t.wf(),
        t.lookup(segs) is Some,
    ensures
        t.first_match(path, segs),
        t.lookup(segs) == t.match_of(path, segs),
{
    lemma_lookup_found(t, 0, segs)
}

/// If `path` is the first trie path that holds a route and admits `segs`,
/// lookup returns the match of that route, whatever other branches it had
/// to give up on the way.
pub proof fn law_lookup_returns_first_match<T>(
    t: Node<T>,
    segs: Seq<Seq<char>>,
    path: Seq<Seq<char>>,
)
    requires
        t.wf(),
        t.first_match(path, segs),
    ensures
        t.lookup(segs) == t.match_of(path, segs),
{
    lemma_lookup_complete(t, 0, segs, path);
    let found = lemma_lookup_found(t, 0, segs);
    lemma_tried_first_both_ways(t, 0, path, found);
}

/// A route is the first match for a path when no other trie path that
/// admits the path holds a route.
pub proof fn law_only_match_is_first<T>(t: Node<T>, path: Seq<Seq<char>>, segs: Seq<Seq<char>>)
    requires
        path_matches(path, segs),
        t.route(path) is Some,
        forall|q: Seq<Seq<char>>| #[trigger]
            path_matches(q, segs) && t.route(q) is Some ==> q == path,
    ensures
        t.first_match(path, segs),
{
    lemma_tries_first_itself(t, path);
}

/// The route of a literal pattern is the first match for the pattern's own
/// text when, all along its way, the literal child was created before the
/// wildcard child of the same node.
pub proof fn law_literals_first<T>(t: Node<T>, segs: Seq<Seq<char>>)
    requires
        t.wf(),
        well_formed_segments(segs),
        t.route(segs) is Some,
        t.literals_stand_first(segs),
    ensures
        t.first_match(segs, segs),
{
    assert forall|q: Seq<Seq<char>>| #[trigger]
        path_matches(q, segs) && t.route(q) is Some implies t.tries_first(segs, q) by {
        lemma_literals_first(t, 0, segs, q);
    }
}

/// Lookup finds nothing exactly when no trie path that admits the segments
/// holds a route: a path of another depth, or with a literal segment that
/// no pattern has at that place, yields no match.
pub proof fn law_no_match<T>(t: Node<T>, segs: Seq<Seq<char>>)
    requires
        t.wf(),
    ensures
        t.lookup(segs) is None <==> forall|q: Seq<Seq<char>>| #[trigger]
            path_matches(q, segs) ==> t.route(q) is None,
{
    if t.lookup(segs) is Some {
        let path = lemma_lookup_found(t, 0, segs);
    } else {
        assert forall|q: Seq<Seq<char>>| #[trigger] path_matches(q, segs) implies t.route(
            q,
        ) is None by {
            if t.route(q) is Some {
                lemma_lookup_complete(t, 0, segs, q);
            }
        }
    }
}

/// A match has as many parameter names as captured values: one of each for
/// every wildcard on the way to the route.
pub proof fn law_match_is_balanced<T>(t: Node<T>, segs: Seq<Seq<char>>)
    requires
        t.wf(),
        well_formed_segments(segs),
        t.lookup(segs) is Some,
    ensures
        t.lookup(segs)->0.names.len() == t.lookup(segs)->0.values.len(),
{
    let path = lemma_lookup_found(t, 0, segs);
    lemma_route_balanced(t, 0, path, segs);
}

/// Captures are bound by position: when the route of a registered pattern
/// decides the lookup of a path, the match pairs each capture segment of the
/// pattern, in order, with the segment of the path at the same place.
pub proof fn law_captures_are_positional<T>(
    t: Node<T>,
    pattern: Seq<Seq<char>>,
    payload: T,
    segs: Seq<Seq<char>>,
)
    requires
        t.wf(),
        well_formed_segments(pattern),
        well_formed_segments(segs),
        t.route(pattern_path(pattern)) == Some(Route { payload, names: capture_names(pattern) }),
        t.first_match(pattern_path(pattern), segs),
    ensures
        t.lookup(segs) is Some,
        t.lookup(segs)->0.payload == payload,
        t.lookup(segs)->0.captures() == bindings(pattern, segs),
{
    law_lookup_returns_first_match(t, segs, pattern_path(pattern));
    lemma_bindings(pattern, segs);
}

/// An exact literal match: the lookup of the very text of a registered
/// pattern without capture segments returns its payload and no captures,
/// provided that lookup reaches its route first. (A wildcard sibling that
/// was created earlier and also leads to a route for the path is tried
/// before it.)
pub proof fn law_exact_literal_match<T>(t: Node<T>, segs: Seq<Seq<char>>)
    requires
        t.wf(),
        well_formed_segments(segs),
        forall|i: int| 0 <= i < segs.len() ==> !is_capture(#[trigger] segs[i]),
        t.first_match(pattern_path(segs), segs),
    ensures
        t.lookup(segs) == Some(
            Match {
                payload: t.route(pattern_path(segs))->0.payload,
                names: Seq::empty(),
                values: Seq::empty(),
            },
        ),
{
    let path = pattern_path(segs);
    assert(path =~= segs);
    law_lookup_returns_first_match(t, segs, path);
    lemma_literal_captures_nothing(segs);
    lemma_route_balanced(t, 0, path, segs);
    assert(t.route(path)->0.names =~= Seq::empty());
}

/// A hit through a child at or after `from` makes the lookup from `from` succeed.
proof fn lemma_lookup_from_hit<T>(t: Node<T>, segs: Seq<Seq<char>>, from: int, k: int)
    requires
        0 <= from <= k < t.children.len(),
        t.lookup_via(segs, k) is Some,
    ensures
        t.lookup_from(segs, from) is Some,
    decreases k - from,
{
    if from < k && t.lookup_via(segs, from) is None {
        lemma_lookup_from_hit(t, segs, from + 1, k);
    }
}

/// The child through which a successful lookup from `from` goes.
proof fn lemma_lookup_from_first<T>(t: Node<T>, segs: Seq<Seq<char>>, from: int) -> (i: int)
    requires
        t.lookup_from(segs, from) is Some,
    ensures
        0 <= from <= i < t.children.len(),
        segs.len() > 0,
        t.lookup_via(segs, i) == t.lookup_from(segs, from),
        forall|j: int| from <= j < i ==> t.lookup_via(segs, j) is None,
    decreases t.children.len() - from,
{
    if t.lookup_via(segs, from) is Some {
        from
    } else {
        lemma_lookup_from_first(t, segs, from + 1)
    }
}

/// Where a trie path that admits the segments holds a route, lookup finds a
/// match.
proof fn lemma_lookup_complete<T>(t: Node<T>, above: nat, segs: Seq<Seq<char>>, q: Seq<Seq<char>>)
    requires
        t.wf_below(above),
        path_matches(q, segs),
        t.route(q) is Some,
    ensures
        t.lookup(segs) is Some,
    decreases segs.len(),
{
    if segs.len() > 0 {
        let k = t.child(q[0]);
        lemma_lookup_complete(
            t.children[k],
            t.captures_at(k, above),
            segs.drop_first(),
            q.drop_first(),
        );
        lemma_lookup_from_hit(t, segs, 0, k);
    }
}

/// The trie path of the route that a successful lookup returns.
proof fn lemma_lookup_found<T>(t: Node<T>, above: nat, segs: Seq<Seq<char>>) -> (path: Seq<
    Seq<char>,
>)
    requires
        t.wf_below(above),
        t.lookup(segs) is Some,
    ensures
        t.first_match(path, segs),
        t.match_of(path, segs) == t.lookup(segs),
    decreases segs.len(),
{
    if segs.len() == 0 {
        Seq::empty()
    } else {
        let i = lemma_lookup_from_first(t, segs, 0);
        let c = t.children[i];
        let rest = segs.drop_first();
        t.lemma_child_unique(above, i);
        let sub = lemma_lookup_found(c, t.captures_at(i, above), rest);
        let path = seq![c.label] + sub;
        assert(path.drop_first() == sub);
        assert(path_matches(path, segs)) by {
            assert forall|j: int| 0 <= j < path.len() implies #[trigger] path[j] == segs[j]
                || path[j].len() == 0 by {}
        }
        assert forall|q: Seq<Seq<char>>| #[trigger]
            path_matches(q, segs) && t.route(q) is Some implies t.tries_first(path, q) by {
            let k = t.child(q[0]);
            if q[0] != c.label {
                if k < i {
                    lemma_lookup_complete(
                        t.children[k],
                        t.captures_at(k, above),
                        rest,
                        q.drop_first(),
                    );
                    assert(t.lookup_via(segs, k) is Some);
                }
            }
        }
        path
    }
}

/// Of two different trie paths of one length, lookup tries one strictly first.
proof fn lemma_tried_first_both_ways<T>(
    t: Node<T>,
    above: nat,
    p: Seq<Seq<char>>,
    q: Seq<Seq<char>>,
)
    requires
        t.wf_below(above),
        p.len() == q.len(),
        t.at(p) is Some,
        t.tries_first(p, q),
        t.tries_first(q, p),
    ensures
        p == q,
    decreases p.len(),
{
    if p.len() > 0 {
        let i = t.child(p[0]);
        lemma_tried_first_both_ways(
            t.children[i],
            t.captures_at(i, above),
            p.drop_first(),
            q.drop_first(),
        );
        assert(p =~= seq![p[0]] + p.drop_first());
    }
}

/// Each path that lookup tries is tried no later than itself.
proof fn lemma_tries_first_itself<T>(t: Node<T>, p: Seq<Seq<char>>)
    ensures
        t.tries_first(p, p),
    decreases p.len(),
{
    if p.len() > 0 && t.has_child(p[0]) {
        lemma_tries_first_itself(t.children[t.child(p[0])], p.drop_first());
    }
}

/// A route has one parameter name for each wildcard on its trie path.
proof fn lemma_route_balanced<T>(
    t: Node<T>,
    above: nat,
    path: Seq<Seq<char>>,
    segs: Seq<Seq<char>>,
)
    requires
        t.wf_below(above),
        well_formed_segments(segs),
        path_matches(path, segs),
        t.route(path) is Some,
    ensures
        t.route(path)->0.names.len() == above + captured_values(path, segs).len(),
    decreases path.len(),
{
    if path.len() > 0 {
        let i = t.child(path[0]);
        lemma_route_balanced(
            t.children[i],
            t.captures_at(i, above),
            path.drop_first(),
            segs.drop_first(),
        );
    }
}

/// The names and the values of a pattern's captures on a path, side by side.
proof fn lemma_bindings(pattern: Seq<Seq<char>>, segs: Seq<Seq<char>>)
    requires
        well_formed_segments(pattern),
        well_formed_segments(segs),
        path_matches(pattern_path(pattern), segs),
    ensures
        capture_names(pattern) == bindings(pattern, segs).map_values(
            |b: (Seq<char>, Seq<char>)| b.0,
        ),
        captured_values(pattern_path(pattern), segs) == bindings(pattern, segs).map_values(
            |b: (Seq<char>, Seq<char>)| b.1,
        ),
    decreases pattern.len(),
{
    if pattern.len() == 0 {
    } else {
        let rest = pattern.drop_first();
        lemma_pattern_step(pattern);
        lemma_bindings(rest, segs.drop_first());
    }
}

/// A trie path without wildcard captures nothing of its own text.
proof fn lemma_literal_captures_nothing(segs: Seq<Seq<char>>)
    ensures
        captured_values(segs, segs) == Seq::<Seq<char>>::empty(),
    decreases segs.len(),
{
    if segs.len() > 0 {
        lemma_literal_captures_nothing(segs.drop_first());
    }
}

/// Where the literal children stand first all along `segs`, the trie path
/// `segs` is tried no later than any other path that admits `segs`.
proof fn lemma_literals_first<T>(t: Node<T>, above: nat, segs: Seq<Seq<char>>, q: Seq<Seq<char>>)
    requires
        t.wf_below(above),
        well_formed_segments(segs),
        t.at(segs) is Some,
        t.literals_stand_first(segs),
        path_matches(q, segs),
        t.at(q) is Some,
    ensures
        t.tries_first(segs, q),
    decreases segs.len(),
{
    if segs.len() > 0 {
        if q[0] == segs[0] {
            let i = t.child(segs[0]);
            lemma_literals_first(
                t.children[i],
                t.captures_at(i, above),
                segs.drop_first(),
                q.drop_first(),
            );
        } else {
            assert(q[0] =~= Seq::<char>::empty());
        }
    }
}

} // verus!

//! Registration: what it adds to the trie, and what it leaves as it was.

use vstd::prelude::*;
use crate::laws::lookup::{law_lookup_found, law_lookup_returns_first_match, law_no_match};
use crate::model::{
    Match, Node, Route, capture_names, captured_values, label_of, lemma_pattern_step, path_matches,
    pattern_path,
};
use crate::segments::{capture_name, is_capture, well_formed_segments};

verus! {

/// After its registration a pattern holds its route: the payload, and the
/// parameter names of its capture segments in their order.
pub proof fn law_insert_registers<T>(t: Node<T>, segs: Seq<Seq<char>>, payload: T)
    requires
        t.wf(),
        well_formed_segments(segs),
    ensures
        t.insert(segs, payload).wf(),
        t.insert(segs, payload).route(pattern_path(segs)) == Some(
            Route { payload, names: capture_names(segs) },
        ),
{
    t.lemma_place_wf(segs, payload, Seq::empty());
    lemma_placed_route(t, segs, payload, Seq::empty());
}

/// A registration changes the route at no other trie path: there it neither
/// adds a route, nor removes one, nor replaces payload or names.
pub proof fn law_insert_keeps_other_routes<T>(
    t: Node<T>,
    segs: Seq<Seq<char>>,
    payload: T,
    other: Seq<Seq<char>>,
)
    requires
        t.wf(),
        well_formed_segments(segs),
        other != pattern_path(segs),
    ensures
        t.insert(segs, payload).route(other) == t.route(other),
{
    lemma_placed_frame(t, segs, payload, Seq::empty(), other);
}

/// Children stay in the order of their creation: between two trie paths
/// that were there before a registration, lookup prefers the same one after it.
pub proof fn law_insert_keeps_order<T>(
    t: Node<T>,
    segs: Seq<Seq<char>>,
    payload: T,
    p: Seq<Seq<char>>,
    q: Seq<Seq<char>>,
)
    requires
        t.wf(),
        well_formed_segments(segs),
        t.at(p) is Some,
        t.at(q) is Some,
    ensures
        t.insert(segs, payload).tries_first(p, q) == t.tries_first(p, q),
{
    lemma_placed_order(t, segs, payload, Seq::empty(), p, q);
}

/// A child that a registration creates becomes the last child of its
/// parent: where the new pattern needs its first new node at depth `k`,
/// every trie path that was there before and goes the same way down to that
/// depth is tried before the new one.
pub proof fn law_insert_appends<T>(
    t: Node<T>,
    segs: Seq<Seq<char>>,
    payload: T,
    q: Seq<Seq<char>>,
    k: int,
)
    requires
        t.wf(),
        well_formed_segments(segs),
        0 <= k < segs.len(),
        k < q.len(),
        q.take(k) == pattern_path(segs).take(k),
        t.at(pattern_path(segs).take(k + 1)) is None,
        t.at(q.take(k + 1)) is Some,
    ensures
        t.insert(segs, payload).tries_first(q, pattern_path(segs)),
        !t.insert(segs, payload).tries_first(pattern_path(segs), q),
{
    lemma_placed_new_is_last(t, segs, payload, Seq::empty(), q, k);
}

/// A registration changes the lookup of no path that the new pattern does
/// not admit.
pub proof fn law_insert_keeps_other_lookups<T>(
    t: Node<T>,
    pattern: Seq<Seq<char>>,
    payload: T,
    segs: Seq<Seq<char>>,
)
    requires
        t.wf(),
        well_formed_segments(pattern),
        !path_matches(pattern_path(pattern), segs),
    ensures
        t.insert(pattern, payload).lookup(segs) == t.lookup(segs),
{
    law_insert_lookup(t, pattern, payload, segs);
}

/// After a registration the lookup of a path returns what it returned
/// before, or else the match of the new route.
pub proof fn law_insert_lookup<T>(
    t: Node<T>,
    pattern: Seq<Seq<char>>,
    payload: T,
    segs: Seq<Seq<char>>,
)
    requires
        t.wf(),
        well_formed_segments(pattern),
    ensures
        t.insert(pattern, payload).lookup(segs) == t.lookup(segs) || (path_matches(
            pattern_path(pattern),
            segs,
        ) && t.insert(pattern, payload).lookup(segs) == Some(
            Match {
                payload,
                names: capture_names(pattern),
                values: captured_values(pattern_path(pattern), segs),
            },
        )),
{
    let after = t.insert(pattern, payload);
    let new = pattern_path(pattern);
    law_insert_registers(t, pattern, payload);
    if after.lookup(segs) is Some {
        let found = law_lookup_found(after, segs);
        if found != new {
            law_insert_keeps_other_routes(t, pattern, payload, found);
            assert forall|q: Seq<Seq<char>>| #[trigger]
                path_matches(q, segs) && t.route(q) is Some implies t.tries_first(found, q) by {
                if q != new {
                    law_insert_keeps_other_routes(t, pattern, payload, q);
                }
                law_insert_keeps_order(t, pattern, payload, found, q);
            }
            law_lookup_returns_first_match(t, segs, found);
        }
    } else {
        law_no_match(after, segs);
        assert forall|q: Seq<Seq<char>>| #[trigger] path_matches(q, segs) implies t.route(
            q,
        ) is None by {
            if q != new {
                law_insert_keeps_other_routes(t, pattern, payload, q);
            }
        }
        law_no_match(t, segs);
    }
}

/// Once a pattern is registered, its trie path is taken: a second
/// registration of a pattern with the same trie path finds a route there,
/// which is when `add` refuses.
pub proof fn law_duplicate_is_refused<T>(
    t: Node<T>,
    first: Seq<Seq<char>>,
    payload: T,
    second: Seq<Seq<char>>,
)
    requires
        t.wf(),
        well_formed_segments(first),
        pattern_path(second) == pattern_path(first),
    ensures
        t.insert(first, payload).route(pattern_path(second)) is Some,
{
    law_insert_registers(t, first, payload);
}

/// The trie after a registration below a node that has the parameter names
/// `above` on the way from the root to it.
spec fn placed<T>(t: Node<T>, segs: Seq<Seq<char>>, payload: T, above: Seq<Seq<char>>) -> Node<T> {
    t.place(pattern_path(segs), Route { payload, names: above + capture_names(segs) })
}

/// The parameter names on the way from the root, one segment further down.
spec fn names_after(above: Seq<Seq<char>>, seg: Seq<char>) -> Seq<Seq<char>> {
    if is_capture(seg) {
        above.push(capture_name(seg))
    } else {
        above
    }
}

/// The position of the child that a registration goes through: that of the
/// child with the label of the first segment, or one past the last child.
spec fn entry<T>(t: Node<T>, segs: Seq<Seq<char>>) -> int {
    if t.has_child(label_of(segs[0])) {
        t.child(label_of(segs[0]))
    } else {
        t.children.len() as int
    }
}

/// The child that a registration goes through, as it was before.
spec fn entered<T>(t: Node<T>, segs: Seq<Seq<char>>) -> Node<T> {
    if t.has_child(label_of(segs[0])) {
        t.children[t.child(label_of(segs[0]))]
    } else {
        Node::leaf(label_of(segs[0]))
    }
}

/// One step of a registration: what it does to the children of a node.
proof fn lemma_placed_step<T>(t: Node<T>, segs: Seq<Seq<char>>, payload: T, above: Seq<Seq<char>>)
    requires
        t.wf_below(above.len()),
        well_formed_segments(segs),
        segs.len() > 0,
    ensures
        ({
            let after = placed(t, segs, payload, above);
            let i = entry(t, segs);
            let below = names_after(above, segs[0]);
            let child = placed(entered(t, segs), segs.drop_first(), payload, below);
            &&& after.wf_below(above.len())
            &&& after.terminal == t.terminal
            &&& after.children.len() == if t.has_child(label_of(segs[0])) {
                t.children.len()
            } else {
                t.children.len() + 1
            }
            &&& after.children[i] == child
            &&& child.label == label_of(segs[0])
            &&& forall|j: int|
                0 <= j < t.children.len() && j != i ==> after.children[j] == t.children[j]
            &&& forall|j: int|
                0 <= j < after.children.len() ==> (#[trigger] after.children[j]).label == if j
                    < t.children.len() {
                    t.children[j].label
                } else {
                    label_of(segs[0])
                }
            &&& entered(t, segs).wf_below(below.len())
            &&& well_formed_segments(segs.drop_first())
            &&& pattern_path(segs)[0] == label_of(segs[0])
            &&& pattern_path(segs).drop_first() == pattern_path(segs.drop_first())
            &&& after.has_child(label_of(segs[0]))
            &&& after.child(label_of(segs[0])) == i
        }),
{
    let after = placed(t, segs, payload, above);
    let label = label_of(segs[0]);
    let rest = segs.drop_first();
    let below = names_after(above, segs[0]);
    let i = entry(t, segs);
    t.lemma_place_wf(segs, payload, above);
    lemma_pattern_step(segs);
    assert(below + capture_names(rest) =~= above + capture_names(segs));
    let child = placed(entered(t, segs), rest, payload, below);
    assert(after.children[i] == child);
}

/// Children keep their positions through a registration.
proof fn lemma_placed_positions<T>(
    t: Node<T>,
    segs: Seq<Seq<char>>,
    payload: T,
    above: Seq<Seq<char>>,
    label: Seq<char>,
)
    requires
        t.wf_below(above.len()),
        well_formed_segments(segs),
    ensures
        t.has_child(label) ==> placed(t, segs, payload, above).has_child(label) && placed(
            t,
            segs,
            payload,
            above,
        ).child(label) == t.child(label),
        segs.len() > 0 && label != label_of(segs[0]) && placed(t, segs, payload, above).has_child(
            label,
        ) ==> t.has_child(label),
{
    if segs.len() == 0 {
    } else {
        lemma_placed_step(t, segs, payload, above);
    }
}

/// A registration leaves its route at the end of the pattern's trie path.
proof fn lemma_placed_route<T>(t: Node<T>, segs: Seq<Seq<char>>, payload: T, above: Seq<Seq<char>>)
    requires
        t.wf_below(above.len()),
        well_formed_segments(segs),
    ensures
        placed(t, segs, payload, above).route(pattern_path(segs)) == Some(
            Route { payload, names: above + capture_names(segs) },
        ),
    decreases segs.len(),
{
    if segs.len() > 0 {
        lemma_placed_step(t, segs, payload, above);
        let below = names_after(above, segs[0]);
        assert(below + capture_names(segs.drop_first()) =~= above + capture_names(segs)) by {
            lemma_pattern_step(segs);
        }
        lemma_placed_route(entered(t, segs), segs.drop_first(), payload, below);
    }
}

/// A registration leaves the routes at all other trie paths as they were.
proof fn lemma_placed_frame<T>(
    t: Node<T>,
    segs: Seq<Seq<char>>,
    payload: T,
    above: Seq<Seq<char>>,
    other: Seq<Seq<char>>,
)
    requires
        t.wf_below(above.len()),
        well_formed_segments(segs),
        other != pattern_path(segs),
    ensures
        placed(t, segs, payload, above).route(other) == t.route(other),
    decreases segs.len(),
{
    if segs.len() == 0 {
        if other.len() == 0 {
            assert(other =~= pattern_path(segs));
        }
    } else if other.len() > 0 {
        lemma_placed_step(t, segs, payload, above);
        let label = label_of(segs[0]);
        let below = names_after(above, segs[0]);
        if other[0] == label {
            assert(other.drop_first() != pattern_path(segs.drop_first())) by {
                if other.drop_first() == pattern_path(segs).drop_first() {
                    assert(other =~= seq![other[0]] + other.drop_first());
                    assert(pattern_path(segs) =~= seq![label] + pattern_path(segs).drop_first());
                }
            }
            lemma_placed_frame(
                entered(t, segs),
                segs.drop_first(),
                payload,
                below,
                other.drop_first(),
            );
        }
    }
}

/// A registration does not change which of two present trie paths is tried first.
proof fn lemma_placed_order<T>(
    t: Node<T>,
    segs: Seq<Seq<char>>,
    payload: T,
    above: Seq<Seq<char>>,
    p: Seq<Seq<char>>,
    q: Seq<Seq<char>>,
)
    requires
        t.wf_below(above.len()),
        well_formed_segments(segs),
        t.at(p) is Some,
        t.at(q) is Some,
    ensures
        placed(t, segs, payload, above).tries_first(p, q) == t.tries_first(p, q),
    decreases p.len(),
{
    if p.len() > 0 && q.len() > 0 {
        lemma_placed_positions(t, segs, payload, above, p[0]);
        lemma_placed_positions(t, segs, payload, above, q[0]);
        if p[0] == q[0] {
            let i = t.child(p[0]);
            if segs.len() == 0 {
            } else {
                lemma_placed_step(t, segs, payload, above);
                if p[0] == label_of(segs[0]) {
                    lemma_placed_order(
                        t.children[i],
                        segs.drop_first(),
                        payload,
                        names_after(above, segs[0]),
                        p.drop_first(),
                        q.drop_first(),
                    );
                }
            }
        }
    }
}

/// Where a registration creates its first node at depth `k`, a path that
/// was there and parts from it at that depth is tried before it.
proof fn lemma_placed_new_is_last<T>(
    t: Node<T>,
    segs: Seq<Seq<char>>,
    payload: T,
    above: Seq<Seq<char>>,
    q: Seq<Seq<char>>,
    k: int,
)
    requires
        t.wf_below(above.len()),
        well_formed_segments(segs),
        0 <= k < segs.len(),
        k < q.len(),
        q.take(k) == pattern_path(segs).take(k),
        t.at(pattern_path(segs).take(k + 1)) is None,
        t.at(q.take(k + 1)) is Some,
    ensures
        placed(t, segs, payload, above).tries_first(q, pattern_path(segs)),
        !placed(t, segs, payload, above).tries_first(pattern_path(segs), q),
    decreases k,
{
    let p = pattern_path(segs);
    let after = placed(t, segs, payload, above);
    lemma_placed_step(t, segs, payload, above);
    lemma_placed_positions(t, segs, payload, above, q[0]);
    assert(q.take(k + 1)[0] == q[0]);
    assert(p.take(k + 1)[0] == p[0]);
    assert(q.take(k + 1).drop_first() == q.drop_first().take(k));
    assert(p.take(k + 1).drop_first() == p.drop_first().take(k));
    let i = t.child(q[0]);
    assert(t.children[i].label == q[0]);
    if k == 0 {
        assert(p.drop_first().take(0) =~= Seq::<Seq<char>>::empty());
        assert(!t.has_child(p[0]));
    } else {
        assert(q[0] == p[0]) by {
            assert(q.take(k)[0] == q[0]);
            assert(p.take(k)[0] == p[0]);
        }
        assert(q.drop_first().take(k - 1) == p.drop_first().take(k - 1)) by {
            assert(q.take(k).drop_first() == q.drop_first().take(k - 1));
            assert(p.take(k).drop_first() == p.drop_first().take(k - 1));
        }
        lemma_placed_new_is_last(
            t.children[i],
            segs.drop_first(),
            payload,
            names_after(above, segs[0]),
            q.drop_first(),
            k - 1,
        );
    }
}

} // verus!

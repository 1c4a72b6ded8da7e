//! The route trie as a mathematical value, and what insertion and lookup mean
//! on it.

use vstd::prelude::*;
use crate::segments::{capture_name, is_capture, well_formed_segments};

verus! {

/// What a pattern leaves at the node where it ends: its payload and the
/// parameter names of its capture segments, in the order of the pattern.
pub struct Route<T> {
    pub payload: T,
    pub names: Seq<Seq<char>>,
}

/// The outcome of a successful lookup: the route that matched and the
/// segments of the path that its captures stand for, in the order of the path.
pub struct Match<T> {
    pub payload: T,
    pub names: Seq<Seq<char>>,
    pub values: Seq<Seq<char>>,
}

/// A node of the trie. The empty label marks the wildcard node, which stands
/// for any one segment; every other label is a literal segment. Children are
/// kept in the order in which they were created.
pub struct Node<T> {
    pub label: Seq<char>,
    pub terminal: Option<Route<T>>,
    pub children: Seq<Node<T>>,
}

/// The label of the node that a pattern segment leads to: the empty label for
/// a capture segment, the segment itself for a literal one.
pub open spec fn label_of(seg: Seq<char>) -> Seq<char> {
    if is_capture(seg) {
        Seq::empty()
    } else {
        seg
    }
}

/// The labels along the trie path of a pattern, one per segment.
pub open spec fn pattern_path(segs: Seq<Seq<char>>) -> Seq<Seq<char>> {
    segs.map_values(|seg: Seq<char>| label_of(seg))
}

/// The parameter names that a pattern declares, in order.
pub open spec fn capture_names(segs: Seq<Seq<char>>) -> Seq<Seq<char>> {
    segs.filter(|seg: Seq<char>| is_capture(seg)).map_values(|seg: Seq<char>| capture_name(seg))
}

/// Whether a trie path admits the segments of a looked-up path: it has one
/// label for each segment, and each label is that segment or the wildcard.
pub open spec fn path_matches(path: Seq<Seq<char>>, segs: Seq<Seq<char>>) -> bool {
    &&& path.len() == segs.len()
    &&& forall|i: int| 0 <= i < path.len() ==> #[trigger] path[i] == segs[i] || path[i].len() == 0
}

/// The segments that the wildcards of a trie path stand for, in order.
pub open spec fn captured_values(path: Seq<Seq<char>>, segs: Seq<Seq<char>>) -> Seq<Seq<char>>
    decreases path.len(),
{
    if path.len() == 0 || segs.len() == 0 {
        Seq::empty()
    } else if path[0] == segs[0] {
        captured_values(path.drop_first(), segs.drop_first())
    } else {
        seq![segs[0]] + captured_values(path.drop_first(), segs.drop_first())
    }
}

/// What a pattern binds on a path: for each capture segment of the pattern,
/// in order, its parameter name with the segment of the path at that place.
pub open spec fn bindings(pattern: Seq<Seq<char>>, segs: Seq<Seq<char>>) -> Seq<
    (Seq<char>, Seq<char>),
>
    decreases pattern.len(),
{
    if pattern.len() == 0 || segs.len() == 0 {
        Seq::empty()
    } else if is_capture(pattern[0]) {
        seq![(capture_name(pattern[0]), segs[0])] + bindings(
            pattern.drop_first(),
            segs.drop_first(),
        )
    } else {
        bindings(pattern.drop_first(), segs.drop_first())
    }
}

/// The first of two attempts that succeeds.
pub open spec fn or_else<T>(first: Option<Match<T>>, second: Option<Match<T>>) -> Option<Match<T>> {
    if first is Some {
        first
    } else {
        second
    }
}

impl<T> Match<T> {
    /// The captures as pairs of parameter name and captured segment.
    pub open spec fn captures(self) -> Seq<(Seq<char>, Seq<char>)> {
        Seq::new(
            if self.names.len() <= self.values.len() {
                self.names.len()
            } else {
                self.values.len()
            },
            |i: int| (self.names[i], self.values[i]),
        )
    }

    /// The same match, seen from the parent of a wildcard node that took `value`.
    pub open spec fn after_capture(self, value: Seq<char>) -> Match<T> {
        Match { payload: self.payload, names: self.names, values: seq![value] + self.values }
    }
}

impl<T> Node<T> {
    /// A node without terminal and without children.
    pub open spec fn leaf(label: Seq<char>) -> Node<T> {
        Node { label, terminal: None, children: Seq::empty() }
    }

    /// The trie that holds no route.
    pub open spec fn empty() -> Node<T> {
        Self::leaf(Seq::empty())
    }

    /// Whether a child of this node has the given label.
    pub open spec fn has_child(self, label: Seq<char>) -> bool {
        exists|i: int| 0 <= i < self.children.len() && (#[trigger] self.children[i]).label == label
    }

    /// The position of the child with the given label.
    pub open spec fn child(self, label: Seq<char>) -> int
        recommends
            self.has_child(label),
    {
        choose|i: int| 0 <= i < self.children.len() && (#[trigger] self.children[i]).label == label
    }

    /// The number of wildcard nodes on the way from the root to a child of
    /// this node, where `above` is their number down to this node.
    pub open spec fn captures_at(self, i: int, above: nat) -> nat {
        if self.children[i].label.len() == 0 {
            above + 1
        } else {
            above
        }
    }

    /// The invariant of the trie below a node that has `above` wildcard nodes
    /// on the way from the root to it, itself included.
    pub open spec fn wf_below(self, above: nat) -> bool
        decreases self,
    {
        &&& self.terminal matches Some(r) ==> r.names.len() == above
        &&& forall|i: int, j: int|
            0 <= i < j < self.children.len() ==> (#[trigger] self.children[i]).label != (
            #[trigger] self.children[j]).label
        &&& forall|i: int|
            0 <= i < self.children.len() ==> !is_capture((#[trigger] self.children[i]).label)
        &&& forall|i: int|
            0 <= i < self.children.len() ==> (#[trigger] self.children[i]).wf_below(
                self.captures_at(i, above),
            )
    }

    /// The invariant of a whole trie.
    pub open spec fn wf(self) -> bool {
        self.wf_below(0)
    }

    /// The node at the end of a path of labels, if the trie has that path.
    pub open spec fn at(self, path: Seq<Seq<char>>) -> Option<Node<T>>
        decreases path.len(),
    {
        if path.len() == 0 {
            Some(self)
        } else if self.has_child(path[0]) {
            self.children[self.child(path[0])].at(path.drop_first())
        } else {
            None
        }
    }

    /// The route registered at a path of labels, if there is one.
    pub open spec fn route(self, path: Seq<Seq<char>>) -> Option<Route<T>> {
        match self.at(path) {
            Some(node) => node.terminal,
            None => None,
        }
    }

    /// The trie with `route` as the terminal at the end of `path`; nodes that
    /// the path needs and the trie lacks are appended as last children.
    pub open spec fn place(self, path: Seq<Seq<char>>, route: Route<T>) -> Node<T>
        decreases path.len(),
    {
        if path.len() == 0 {
            Node { terminal: Some(route), ..self }
        } else if self.has_child(path[0]) {
            let i = self.child(path[0]);
            Node {
                children: self.children.update(i, self.children[i].place(path.drop_first(), route)),
                ..self
            }
        } else {
            Node {
                children: self.children.push(Self::leaf(path[0]).place(path.drop_first(), route)),
                ..self
            }
        }
    }

    /// The lookup of a non-empty path through the child whose label is the
    /// first segment.
    pub open spec fn via_literal(self, segs: Seq<Seq<char>>) -> Option<Match<T>> {
        if self.has_child(segs[0]) {
            self.children[self.child(segs[0])].lookup(segs.drop_first())
        } else {
            None
        }
    }

    /// The lookup of a non-empty path through the wildcard child, which
    /// captures the first segment.
    pub open spec fn via_wildcard(self, segs: Seq<Seq<char>>) -> Option<Match<T>> {
        if self.has_child(Seq::empty()) {
            match self.children[self.child(Seq::empty())].lookup(segs.drop_first()) {
                Some(m) => Some(m.after_capture(segs[0])),
                None => None,
            }
        } else {
            None
        }
    }

    /// Whether lookup tries the child labelled `seg` before the wildcard
    /// child: it does unless the wildcard child was created first.
    pub open spec fn literal_stands_first(self, seg: Seq<char>) -> bool {
        self.has_child(seg) && self.has_child(Seq::empty()) ==> self.child(seg) < self.child(
            Seq::empty(),
        )
    }

    /// Whether, all along the way of the literal segments `segs`, the child
    /// labelled with the segment stands before the wildcard child of the
    /// same node.
    pub open spec fn literals_stand_first(self, segs: Seq<Seq<char>>) -> bool
        decreases segs.len(),
    {
        segs.len() > 0 ==> {
            &&& self.literal_stands_first(segs[0])
            &&& self.has_child(segs[0]) ==> self.children[self.child(segs[0])].literals_stand_first(
                segs.drop_first(),
            )
        }
    }

    /// The match that the route at a trie path makes of a looked-up path.
    pub open spec fn match_of(self, path: Seq<Seq<char>>, segs: Seq<Seq<char>>) -> Option<
        Match<T>,
    > {
        match self.route(path) {
            Some(r) => Some(
                Match { payload: r.payload, names: r.names, values: captured_values(path, segs) },
            ),
            None => None,
        }
    }

    /// Whether lookup tries the trie path `p` no later than the trie path
    /// `q`: where the two first part, the child that `p` takes stands before
    /// the child that `q` takes.
    pub open spec fn tries_first(self, p: Seq<Seq<char>>, q: Seq<Seq<char>>) -> bool
        decreases p.len(),
    {
        if p.len() == 0 || q.len() == 0 {
            true
        } else if p[0] == q[0] {
            self.has_child(p[0]) ==> self.children[self.child(p[0])].tries_first(
                p.drop_first(),
                q.drop_first(),
            )
        } else {
            self.has_child(p[0]) && self.has_child(q[0]) && self.child(p[0]) < self.child(q[0])
        }
    }

    /// Whether `path` holds the route that decides the lookup of `segs`: it
    /// holds a route, admits the segments, and is tried no later than any
    /// other path that does both.
    pub open spec fn first_match(self, path: Seq<Seq<char>>, segs: Seq<Seq<char>>) -> bool {
        &&& path_matches(path, segs)
        &&& self.route(path) is Some
        &&& forall|q: Seq<Seq<char>>|
            #[trigger] path_matches(q, segs) && self.route(q) is Some ==> self.tries_first(path, q)
    }

    /// The trie after the registration of a pattern, given by its segments.
    pub open spec fn insert(self, segs: Seq<Seq<char>>, payload: T) -> Node<T> {
        self.place(pattern_path(segs), Route { payload, names: capture_names(segs) })
    }

    /// What a lookup of the path with segments `segs` finds from this node.
    pub open spec fn lookup(self, segs: Seq<Seq<char>>) -> Option<Match<T>>
        decreases segs.len(), self.children.len() + 1,
    {
        if segs.len() == 0 {
            match self.terminal {
                Some(r) => Some(Match { payload: r.payload, names: r.names, values: Seq::empty() }),
                None => None,
            }
        } else {
            self.lookup_from(segs, 0)
        }
    }

    /// The lookup of a non-empty path among the children from position
    /// `from` on, in the order in which they are stored: the first child that
    /// yields a match decides.
    pub open spec fn lookup_from(self, segs: Seq<Seq<char>>, from: int) -> Option<Match<T>>
        decreases segs.len(), self.children.len() - from,
    {
        if segs.len() == 0 || from < 0 || from >= self.children.len() {
            None
        } else {
            match self.lookup_via(segs, from) {
                Some(m) => Some(m),
                None => self.lookup_from(segs, from + 1),
            }
        }
    }

    /// The lookup of a non-empty path through one child: a child whose label
    /// is the first segment continues with the rest; the wildcard child does
    /// so too and captures the first segment; any other child yields nothing.
    pub open spec fn lookup_via(self, segs: Seq<Seq<char>>, i: int) -> Option<Match<T>>
        decreases segs.len(), 0int,
    {
        if segs.len() == 0 || i < 0 || i >= self.children.len() {
            None
        } else if self.children[i].label == segs[0] {
            self.children[i].lookup(segs.drop_first())
        } else if self.children[i].label.len() == 0 {
            match self.children[i].lookup(segs.drop_first()) {
                Some(m) => Some(m.after_capture(segs[0])),
                None => None,
            }
        } else {
            None
        }
    }
}

/// The trie path and the parameter names of a pattern, given those of the
/// pattern without its first segment.
pub(crate) proof fn lemma_pattern_step(segs: Seq<Seq<char>>)
    requires
        segs.len() > 0,
    ensures
        pattern_path(segs)[0] == label_of(segs[0]),
        pattern_path(segs).drop_first() == pattern_path(segs.drop_first()),
        capture_names(segs) == if is_capture(segs[0]) {
            seq![capture_name(segs[0])] + capture_names(segs.drop_first())
        } else {
            capture_names(segs.drop_first())
        },
{
    let declares = |seg: Seq<char>| is_capture(seg);
    let rest = segs.drop_first();
    assert(segs =~= seq![segs[0]] + rest);
    rest.lemma_filter_prepend(segs[0], declares);
}

impl<T> Node<T> {
    /// In a well-formed trie a label names one child.
    pub(crate) proof fn lemma_child_unique(self, above: nat, i: int)
        requires
            self.wf_below(above),
            0 <= i < self.children.len(),
        ensures
            self.has_child(self.children[i].label),
            self.child(self.children[i].label) == i,
    {
    }

    /// Registration of a pattern keeps the trie well-formed. `above` holds the
    /// parameter names collected on the way from the root to this node.
    pub(crate) proof fn lemma_place_wf(
        self,
        segs: Seq<Seq<char>>,
        payload: T,
        above: Seq<Seq<char>>,
    )
        requires
            self.wf_below(above.len()),
            well_formed_segments(segs),
        ensures
            self.place(
                pattern_path(segs),
                Route { payload, names: above + capture_names(segs) },
            ).wf_below(above.len()),
        decreases segs.len(),
    {
        let route = Route { payload, names: above + capture_names(segs) };
        let after = self.place(pattern_path(segs), route);
        if segs.len() == 0 {
        } else {
            lemma_pattern_step(segs);
            let label = label_of(segs[0]);
            let rest = segs.drop_first();
            let below = if is_capture(segs[0]) {
                above.push(capture_name(segs[0]))
            } else {
                above
            };
            assert(below + capture_names(rest) =~= above + capture_names(segs));
            if self.has_child(label) {
                let i = self.child(label);
                self.children[i].lemma_place_wf(rest, payload, below);
                assert forall|j: int| 0 <= j < after.children.len() implies (
                #[trigger] after.children[j]).wf_below(after.captures_at(j, above.len())) by {}
            } else {
                let fresh = Self::leaf(label);
                fresh.lemma_place_wf(rest, payload, below);
                assert forall|j: int| 0 <= j < after.children.len() implies (
                #[trigger] after.children[j]).wf_below(after.captures_at(j, above.len())) by {}
                assert forall|j: int, k: int| 0 <= j < k < after.children.len() implies (
                #[trigger] after.children[j]).label != (#[trigger] after.children[k]).label by {}
            }
        }
    }
}

} // verus!

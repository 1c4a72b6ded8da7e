//! The routing tree: registration of patterns and lookup of paths.

use vstd::prelude::*;
use crate::branch::Branch;
use crate::laws::lookup::law_match_is_balanced;
use crate::model::{Node, pattern_path};
use crate::segments::{segments, split_segments, texts};

verus! {

/// The error of a registration whose pattern is already taken.
#[derive(Debug, Clone, Copy, PartialEq, Eq)]
pub struct DuplicateRoute;

/// The routing information is stored as a trie.
///
/// A pattern is registered with a payload, which is usually a handler
/// function. A path is looked up segment by segment; the segments that
/// stand where the pattern has its capture segments are handed back with the
/// payload.
pub struct Tree<'a, T> {
    root: Branch<'a, T>,
}

impl<'a, T> View for Tree<'a, T> {
    type V = Node<T>;

    closed spec fn view(&self) -> Node<T> {
        self.root@
    }
}

/// The texts of a list of captures.
pub open spec fn capture_texts(v: Seq<(&str, String)>) -> Seq<(Seq<char>, Seq<char>)> {
    v.map_values(|p: (&str, String)| (p.0@, p.1@))
}

impl<'a, T> Tree<'a, T> {
    /// Every tree is a well-formed trie.
    #[verifier::type_invariant]
    spec fn well_formed(self) -> bool {
        self.root@.wf()
    }

    /// Constructs a new routing tree.
    pub fn new<'b>() -> (t: Tree<'b, T>)
        ensures
            t@ == Node::<T>::empty(),
            t@.wf(),
    {
        proof {
            reveal_strlit("");
            assert(""@ =~= Seq::<char>::empty());
        }
        Tree { root: Branch::leaf("") }
    }

    /// Adds a new path and its associated value to the tree. Prefix a segment
    /// with a colon (:) to enable capturing on the segment.
    ///
    /// A duplicate route is refused, and the tree stays as it was: a route is
    /// a duplicate when a pattern with the same literal segments, and with
    /// captures at the same places, was added before.
    pub fn add(&mut self, key: &'a str, value: T) -> (r: Result<(), DuplicateRoute>)
        ensures
            old(self)@.wf(),
            final(self)@.wf(),
            match r {
                Ok(_) => old(self)@.route(pattern_path(segments(key@))) is None && final(self)@
                    == old(self)@.insert(segments(key@), value),
                Err(_) => old(self)@.route(pattern_path(segments(key@))) is Some && final(self)@
                    == old(self)@,
            },
    {
        let parts = split_segments(key);
        let capture_labels: Vec<&'a str> = Vec::new();
        assert(texts(parts@).skip(0) == texts(parts@));
        proof {
            use_type_invariant(&*self);
        }
        let mut root = Branch::leaf("");
        std::mem::swap(&mut root, &mut self.root);
        let r = root.add_(parts.as_slice(), 0, value, capture_labels);
        self.root = root;
        r
    }

    /// Retrieve the value associated with the path, together with the captured
    /// path segments.
    ///
    /// Each capture is the name that the pattern gave it, with the segment of
    /// the path that stands in its place. Where a segment can go two ways, as
    /// a literal and as a capture, the branch that was created first is tried
    /// first, and the other one if that leads to no route.
    pub fn find(&self, key: &str) -> (r: Option<(&T, Vec<(&'a str, String)>)>)
        ensures
            self@.wf(),
            match self@.lookup(segments(key@)) {
                Some(m) => r matches Some((payload, captures)) && *payload == m.payload
                    && capture_texts(captures@) == m.captures() && captures@.len()
                    == m.names.len() && captures@.len() == m.values.len(),
                None => r is None,
            },
    {
        proof {
            use_type_invariant(self);
        }
        let parts = split_segments(key);
        let mut captured: Vec<String> = Vec::new();
        assert(texts(parts@).skip(0) == texts(parts@));
        match self.root.find_(parts.as_slice(), 0, &mut captured) {
            None => None,
            Some(found) => {
                proof {
                    law_match_is_balanced(self@, segments(key@));
                }
                let labels = &found.1;
                let ghost values = captured@;
                let mut captures: Vec<(&'a str, String)> = Vec::new();
                for value in it: captured.into_iter()
                    invariant
                        it.seq() == values,
                        values.len() == labels.len(),
                        captures.len() == it.index(),
                        forall|j: int|
                            0 <= j < captures.len() ==> (#[trigger] captures@[j]).0@ == labels@[j]@
                                && captures@[j].1@ == values[j]@,
                {
                    let i: usize = captures.len();
                    captures.push((labels[i], value));
                }
                Some((&found.0, captures))
            },
        }
    }
}

} // verus!

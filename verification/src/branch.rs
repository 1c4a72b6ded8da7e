//! The nodes of the routing tree, and the recursive descent that registers
//! a pattern and looks a path up.

use vstd::prelude::*;
use crate::model::{Node, Route, capture_names, lemma_pattern_step, pattern_path};
use crate::segments::{str_eq, texts, well_formed_segments};
use crate::tree::DuplicateRoute;

verus! {

/// A node of the routing tree. Each node is labelled with its path segment;
/// the empty label marks the node that stands for any one segment. The value
/// is a tuple: the payload, and the names of the captured path segments.
pub(crate) struct Branch<'a, T> {
    label: &'a str,
    value: Option<(T, Vec<&'a str>)>,
    branches: Vec<Branch<'a, T>>,
}

impl<'a, T> View for Branch<'a, T> {
    type V = Node<T>;

    closed spec fn view(&self) -> Node<T>
        decreases self, 1int,
    {
        Node {
            label: self.label@,
            terminal: match self.value {
                Some((payload, names)) => Some(Route { payload, names: texts(names@) }),
                None => None,
            },
            children: Seq::new(self.branches@.len(), |i: int| self.branch_view(i)),
        }
    }
}

/// The texts of a list of owned strings.
pub(crate) open spec fn owned_texts(v: Seq<String>) -> Seq<Seq<char>> {
    v.map_values(|s: String| s@)
}

impl<'a, T> Branch<'a, T> {
    /// The view of the branch at position `i`.
    closed spec fn branch_view(&self, i: int) -> Node<T>
        decreases self, 0int,
    {
        if 0 <= i < self.branches@.len() {
            self.branches[i]@
        } else {
            Node::empty()
        }
    }

    /// A node with the given label, without value and without branches.
    pub(crate) fn leaf(label: &'a str) -> (b: Self)
        ensures
            b@ == Node::<T>::leaf(label@),
    {
        let b = Branch { label, value: None, branches: Vec::new() };
        assert(b@.children =~= Seq::empty());
        b
    }

    /// The position of the branch with the given label.
    fn branch_with(&self, label: &str) -> (r: Option<usize>)
        ensures
            match r {
                Some(i) => i < self@.children.len() && self@.children[i as int].label == label@,
                None => !self@.has_child(label@),
            },
    {
        let mut i: usize = 0;
        while i < self.branches.len()
            invariant
                i <= self.branches.len(),
                forall|j: int| 0 <= j < i ==> (#[trigger] self@.children[j]).label != label@,
            decreases self.branches.len() - i,
        {
            assert(self@.children[i as int] == self.branches[i as int]@);
            if str_eq(self.branches[i].label, label) {
                return Some(i);
            }
            i += 1;
        }
        None
    }

    /// Registers below this node the pattern made of the segments from
    /// position `at` on. `capture_labels` holds the parameter names of the
    /// segments before `at`.
    pub(crate) fn add_(
        &mut self,
        segments: &[&'a str],
        at: usize,
        value: T,
        capture_labels: Vec<&'a str>,
    ) -> (r: Result<(), DuplicateRoute>)
        requires
            at <= segments.len(),
            well_formed_segments(texts(segments@)),
            old(self)@.wf_below(capture_labels@.len()),
        ensures
            final(self)@.wf_below(capture_labels@.len()),
            ({
                let rest = texts(segments@).skip(at as int);
                let route = Route {
                    payload: value,
                    names: texts(capture_labels@) + capture_names(rest),
                };
                match r {
                    Ok(_) => old(self)@.route(pattern_path(rest)) is None && final(self)@ == old(
                        self,
                    )@.place(pattern_path(rest), route),
                    Err(_) => old(self)@.route(pattern_path(rest)) is Some && final(self)@ == old(
                        self,
                    )@,
                }
            }),
        decreases segments.len() - at,
    {
        let ghost rest = texts(segments@).skip(at as int);
        let ghost above = texts(capture_labels@);
        if at == segments.len() {
            if self.value.is_some() {
                return Err(DuplicateRoute);
            }
            self.value = Some((value, capture_labels));
            proof {
                assert(self@.children =~= old(self)@.children);
            }
            return Ok(());
        }
        let segment = segments[at];
        proof {
            assert(rest.drop_first() == texts(segments@).skip(at + 1));
            lemma_pattern_step(rest);
            reveal_strlit("");
            assert(""@ =~= Seq::<char>::empty());
        }
        let mut capture_labels = capture_labels;
        let mut label = segment;
        let mut existing = self.branch_with(segment);
        if existing.is_none() && segment.get_char(0) == ':' {
            let n: usize = segment.unicode_len();
            capture_labels.push(segment.substring_char(1, n));
            label = "";
            existing = self.branch_with("");
        }
        proof {
            assert(texts(capture_labels@) + capture_names(rest.drop_first()) =~= above
                + capture_names(rest));
        }
        match existing {
            Some(i) => {
                let r = self.branches[i].add_(segments, at + 1, value, capture_labels);
                proof {
                    let before = old(self)@;
                    assert(self@.children =~= before.children.update(
                        i as int,
                        self.branches[i as int]@,
                    ));
                    if r is Err {
                        assert(self@.children =~= before.children);
                    }
                }
                r
            },
            None => {
                let mut branch = Branch::leaf(label);
                let r = branch.add_(segments, at + 1, value, capture_labels);
                self.branches.push(branch);
                assert(self@.children =~= old(self)@.children.push(branch@));
                r
            },
        }
    }

    /// The lookup from this node of the segments from position `at` on.
    /// `captured` takes the segments that wildcard nodes stand for on the way
    /// to the match, and is left as it was when there is no match.
    pub(crate) fn find_(
        &self,
        segments: &[&str],
        at: usize,
        captured: &mut Vec<String>,
    ) -> (r: Option<&(T, Vec<&'a str>)>)
        requires
            at <= segments.len(),
        ensures
            match self@.lookup(texts(segments@).skip(at as int)) {
                Some(m) => r matches Some(found) && found.0 == m.payload && texts(found.1@)
                    == m.names && owned_texts(final(captured)@) == owned_texts(old(captured)@)
                    + m.values,
                None => r is None && final(captured)@ == old(captured)@,
            },
        decreases segments.len() - at,
    {
        let ghost rest = texts(segments@).skip(at as int);
        if at == segments.len() {
            return self.value.as_ref();
        }
        let segment = segments[at];
        let mut i: usize = 0;
        while i < self.branches.len()
            invariant
                i <= self.branches.len(),
                at < segments.len(),
                rest == texts(segments@).skip(at as int),
                rest[0] == segment@,
                rest.drop_first() == texts(segments@).skip(at + 1),
                self@.lookup(rest) == self@.lookup_from(rest, i as int),
                captured@ == old(captured)@,
            decreases self.branches.len() - i,
        {
            let branch = &self.branches[i];
            if str_eq(branch.label, segment) {
                let result = branch.find_(segments, at + 1, captured);
                assert(self@.lookup_via(rest, i as int) == branch@.lookup(rest.drop_first()));
                if result.is_some() {
                    return result;
                }
            } else if branch.label.is_empty() {
                captured.push(String::from_str(segment));
                let result = branch.find_(segments, at + 1, captured);
                if result.is_some() {
                    return result;
                }
                captured.pop();
            }
            i += 1;
        }
        None
    }
}

} // verus!

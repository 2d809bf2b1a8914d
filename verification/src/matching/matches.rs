use vstd::prelude::*;
use crate::forest::{strings_view, Node, NodeData, NodeView};

verus! {

/// Two nodes can stand for each other: two terminals of the same kind and
/// value, or two interior nodes that carry the same identifier or, where
/// neither carries one, are of the same kind.
pub open spec fn node_matches(a: NodeView, b: NodeView) -> bool {
    if a.is_terminal && b.is_terminal {
        a.kind == b.kind && a.value == b.value
    } else if !a.is_terminal && !b.is_terminal {
        match (a.identifier, b.identifier) {
            (Some(x), Some(y)) => x == y,
            (None, None) => a.kind == b.kind,
            _ => false,
        }
    } else {
        false
    }
}

/// Whether two lists of strings hold the same strings in the same order.
pub fn strings_equal(a: &Vec<String>, b: &Vec<String>) -> (same: bool)
    ensures
        same == (strings_view(a@) == strings_view(b@)),
{
    if a.len() != b.len() {
        assert(strings_view(a@).len() != strings_view(b@).len());
        return false;
    }
    let mut k: usize = 0;
    while k < a.len()
        invariant
            k <= a.len(),
            a.len() == b.len(),
            forall|i: int| 0 <= i < k ==> a@[i]@ == b@[i]@,
        decreases a.len() - k,
    {
        if a[k] != b[k] {
            assert(strings_view(a@)[k as int] != strings_view(b@)[k as int]);
            return false;
        }
        k += 1;
    }
    assert(strings_view(a@) =~= strings_view(b@));
    true
}

impl Node {
    /// Whether `self` and `other` carry the same label: two terminals of the
    /// same kind and value, or two interior nodes with the same identifier.
    pub fn same_label(&self, other: &Node) -> (same: bool)
        ensures
            same == crate::matching::same_label(self@, other@),
    {
        match (&self.data, &other.data) {
            (NodeData::Terminal { value: left_value }, NodeData::Terminal { value: right_value }) => {
                self.kind == other.kind && *left_value == *right_value
            },
            (
                NodeData::NonTerminal { identifier: left_identifier, .. },
                NodeData::NonTerminal { identifier: right_identifier, .. },
            ) => {
                match (left_identifier, right_identifier) {
                    (Some(x), Some(y)) => strings_equal(x, y),
                    (None, None) => true,
                    _ => false,
                }
            },
            _ => false,
        }
    }
}

/// The test that decides whether two nodes are compared at all.
pub trait Matches {
    /// What `matches` decides.
    spec fn corresponds(&self, right: &Node) -> bool;

    /// Whether `self` and `right` can stand for each other.
    fn matches(&self, right: &Node) -> (can: bool)
        ensures
            can == self.corresponds(right),
    ;
}

impl Matches for Node {
    open spec fn corresponds(&self, right: &Node) -> bool {
        node_matches(self@, right@)
    }

    fn matches(&self, right: &Node) -> (can: bool) {
        match (&self.data, &right.data) {
            (NodeData::Terminal { value: left_value }, NodeData::Terminal { value: right_value }) => {
                self.kind == right.kind && *left_value == *right_value
            },
            (
                NodeData::NonTerminal { identifier: left_identifier, .. },
                NodeData::NonTerminal { identifier: right_identifier, .. },
            ) => {
                match (left_identifier, right_identifier) {
                    (Some(x), Some(y)) => strings_equal(x, y),
                    (None, None) => self.kind == right.kind,
                    _ => false,
                }
            },
            _ => false,
        }
    }
}

} // verus!

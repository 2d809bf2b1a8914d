use vstd::prelude::*;
use crate::forest::{contents, wf, Forest};

verus! {

/// What is known of two matched nodes: how similar they are, and whether
/// their subtrees hold the same text.
#[derive(Clone, Copy, Debug, PartialEq, Eq, Default)]
pub struct MatchingEntry {
    pub score: u64,
    pub is_perfect_match: bool,
}

/// The partner that a node has in a set of matchings.
#[derive(Clone, Copy, Debug, PartialEq, Eq)]
pub struct Matching {
    pub matching_node: usize,
    pub score: u64,
    pub is_perfect_match: bool,
}

impl MatchingEntry {
    /// The entry for the nodes `left` and `right` with the given score: the
    /// match is perfect if and only if both subtrees hold the same text.
    pub fn new(forest: &Forest, left: usize, right: usize, score: u64) -> (entry: MatchingEntry)
        requires
            wf(forest@),
            left < forest@.len(),
            right < forest@.len(),
        ensures
            entry.score == score,
            entry.is_perfect_match == (contents(forest@, left as int) == contents(
                forest@,
                right as int,
            )),
    {
        let left_contents = forest.contents(left);
        let right_contents = forest.contents(right);
        MatchingEntry { score, is_perfect_match: left_contents == right_contents }
    }
}

} // verus!

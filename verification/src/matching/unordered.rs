pub mod assignment_problem;
pub mod unique_label;

use vstd::prelude::*;
use crate::forest::{lemma_child_before, wf, Forest};
use crate::matching::matchings::Matchings;
use crate::matching::ordered::admissible;
use crate::matching::matches::node_matches;
use crate::matching::{all_labeled, labeled, unordered_matchings};

verus! {

/// Whether every child of the interior node `node` carries a label.
pub fn all_children_labeled(forest: &Forest, node: usize) -> (all: bool)
    requires
        wf(forest@),
        node < forest@.len(),
        !forest@[node as int].is_terminal,
    ensures
        all == all_labeled(forest@, node as int),
{
    let children = forest.node(node).children();
    let mut k: usize = 0;
    while k < children.len()
        invariant
            k <= children.len(),
            wf(forest@),
            node < forest@.len(),
            children@ == forest@[node as int].children,
            forall|i: int| 0 <= i < k ==> labeled(forest@[(#[trigger] children@[i]) as int]),
        decreases children.len() - k,
    {
        proof {
            lemma_child_before(forest@, node as int, k as int);
        }
        if !forest.node(children[k]).has_identifier() {
            return false;
        }
        k += 1;
    }
    true
}

/// Matches two interior nodes whose children may stand in any order: by
/// label where every child on both sides carries one, else by assignment.
/// Nodes of another shape get no matchings.
pub fn calculate_matchings(forest: &Forest, left: usize, right: usize) -> (matchings: Matchings)
    requires
        wf(forest@),
        left < forest@.len(),
        right < forest@.len(),
    ensures
        matchings@ == unordered_matchings(forest@, left, right),
        admissible(matchings@, forest@, left as int, right as int),
        !forest@[left as int].is_terminal && !forest@[right as int].is_terminal && node_matches(
            forest@[left as int],
            forest@[right as int],
        ) ==> crate::matching::root_entry_is(matchings@, forest@, left, right, 1),
        !forest@[left as int].is_terminal && !forest@[right as int].is_terminal && node_matches(
            forest@[left as int],
            forest@[right as int],
        ) ==> crate::matching::score_in(matchings@, left, right) == (if all_labeled(forest@, left as int)
            && all_labeled(forest@, right as int) {
            crate::matching::label_total(forest@, left, right)
        } else {
            crate::matching::assignment_total(forest@, left, right)
        }) && crate::matching::score_in(matchings@, left, right) <= u64::MAX,
        !forest@[left as int].is_terminal && !forest@[right as int].is_terminal && node_matches(
            forest@[left as int],
            forest@[right as int],
        ) && !(all_labeled(forest@, left as int) && all_labeled(forest@, right as int))
            ==> crate::matching::assigned_best(forest@, left, right),
    decreases left, 2nat,
{
    if forest.node(left).is_terminal() || forest.node(right).is_terminal() {
        return Matchings::empty();
    }
    if all_children_labeled(forest, left) && all_children_labeled(forest, right) {
        unique_label::calculate_matchings(forest, left, right)
    } else {
        assignment_problem::calculate_matchings(forest, left, right)
    }
}

} // verus!

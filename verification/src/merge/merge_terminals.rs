use vstd::prelude::*;
use crate::forest::{clone_option_string, wf, Forest, NodeData, NodeView};
use crate::merge::merged_cst_node::{
    drawn, merged_from, sided, terminal_drawn, MergedCSTNode, MergedTree,
};

verus! {

/// The merge of three terminals. Where left and right hold the same value,
/// or only one of them differs from base, the result is a terminal of the
/// kind and white space of left with the value that changed; where both
/// differ from base and from each other, it is a conflict of the two.
pub open spec fn terminals_merged(f: Seq<NodeView>, b: usize, l: usize, r: usize) -> MergedTree {
    let base_value = f[b as int].value;
    let left_value = f[l as int].value;
    let right_value = f[r as int].value;
    if left_value == right_value {
        MergedTree::Terminal {
            kind: f[l as int].kind,
            value: left_value,
            leading_white_space: f[l as int].leading_white_space,
        }
    } else if left_value == base_value {
        MergedTree::Terminal {
            kind: f[l as int].kind,
            value: right_value,
            leading_white_space: f[l as int].leading_white_space,
        }
    } else if right_value == base_value {
        MergedTree::Terminal {
            kind: f[l as int].kind,
            value: left_value,
            leading_white_space: f[l as int].leading_white_space,
        }
    } else {
        MergedTree::Conflict {
            left: Some(Box::new(merged_from(f, l as int))),
            right: Some(Box::new(merged_from(f, r as int))),
        }
    }
}

/// The merge of three terminals is a conflict exactly where left and right
/// differ from base and from each other.
pub proof fn lemma_terminal_conflict_is_divergence(f: Seq<NodeView>, b: usize, l: usize, r: usize)
    ensures
        terminals_merged(f, b, l, r) is Conflict <==> {
            &&& f[l as int].value != f[r as int].value
            &&& f[l as int].value != f[b as int].value
            &&& f[r as int].value != f[b as int].value
        },
{
}

/// Swapping the sides of a merge of three terminals gives the same value,
/// or the same conflict with its sides exchanged.
pub proof fn lemma_terminals_merged_swapped(f: Seq<NodeView>, b: usize, l: usize, r: usize)
    ensures
        match terminals_merged(f, b, l, r) {
            MergedTree::Terminal { value, .. } => terminals_merged(f, b, r, l) == (
            MergedTree::Terminal {
                kind: f[r as int].kind,
                value,
                leading_white_space: f[r as int].leading_white_space,
            }),
            MergedTree::Conflict { left, right } => terminals_merged(f, b, r, l) == (
            MergedTree::Conflict { left: right, right: left }),
            MergedTree::NonTerminal { .. } => false,
        },
{
}

/// Where one side holds the value of base, the merge of three terminals
/// holds the value of the other side.
pub proof fn lemma_unchanged_side_yields(f: Seq<NodeView>, b: usize, l: usize, r: usize)
    ensures
        f[l as int].value == f[b as int].value ==> terminals_merged(f, b, l, r) == (
        MergedTree::Terminal {
            kind: f[l as int].kind,
            value: f[r as int].value,
            leading_white_space: f[l as int].leading_white_space,
        }),
        f[r as int].value == f[b as int].value ==> terminals_merged(f, b, l, r) == (
        MergedTree::Terminal {
            kind: f[l as int].kind,
            value: f[l as int].value,
            leading_white_space: f[l as int].leading_white_space,
        }),
{
}

/// Merges the terminals `base`, `left` and `right`.
pub fn merge_terminals(forest: &Forest, base: usize, left: usize, right: usize) -> (merged:
    MergedCSTNode)
    requires
        wf(forest@),
        base < forest@.len(),
        left < forest@.len(),
        right < forest@.len(),
        forest@[base as int].is_terminal,
        forest@[left as int].is_terminal,
        forest@[right as int].is_terminal,
    ensures
        merged@ == terminals_merged(forest@, base, left, right),
        sided(merged@),
        drawn(merged@, forest@),
{
    let left_node = forest.node(left);
    let left_equals_right = forest.terminal_values_equal(left, right);
    let right_equals_base = forest.terminal_values_equal(right, base);
    let left_equals_base = forest.terminal_values_equal(left, base);
    if left_equals_right {
        MergedCSTNode::from(forest, left)
    } else if left_equals_base {
        proof {
            assert(terminal_drawn(
                forest@,
                forest@[left as int].kind,
                forest@[right as int].value,
                forest@[left as int].leading_white_space,
            )) by {
                assert(forest@[right as int].is_terminal && forest@[left as int].is_terminal);
            }
        }
        match &forest.node(right).data {
            NodeData::Terminal { value } => MergedCSTNode::Terminal {
                kind: left_node.kind.clone(),
                value: value.clone(),
                leading_white_space: clone_option_string(&left_node.leading_white_space),
            },
            NodeData::NonTerminal { .. } => MergedCSTNode::from(forest, right),
        }
    } else if right_equals_base {
        MergedCSTNode::from(forest, left)
    } else {
        MergedCSTNode::Conflict {
            left: Some(Box::new(MergedCSTNode::from(forest, left))),
            right: Some(Box::new(MergedCSTNode::from(forest, right))),
        }
    }
}

} // verus!

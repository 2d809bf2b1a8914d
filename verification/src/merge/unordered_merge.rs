use std::collections::HashSet;
use vstd::prelude::*;
use crate::forest::{lemma_child_before, wf, Forest, NodeData};
use crate::matching::matchings::{lemma_level_partner, Matchings};
use crate::merge::merge_error::{MergeError, MergeFault};
use crate::merge::merged_cst_node::{
    all_drawn, all_sided, interior_drawn, lemma_views_push, sound_tree, MergedCSTNode, MergedTree,
};
use crate::merge::ordered_merge::{conflict_between, lemma_prepend_twice};
use crate::merge::{
    closes_block, first_emitted, first_pass, first_stop, outcome, prepend, processed, scenario_of,
    second_emitted, second_pass, sound, unordered_children, unordered_merge_of,
};

verus! {

broadcast use vstd::std_specs::hash::group_hash_axioms;

/// Whether the node `child` is the terminal that closes the block of the
/// interior node `parent`.
pub fn is_block_end(forest: &Forest, parent: usize, child: usize) -> (closes: bool)
    requires
        parent < forest@.len(),
        child < forest@.len(),
    ensures
        closes == closes_block(forest@, parent, child),
{
    match &forest.node(parent).data {
        NodeData::NonTerminal { delimiters: Some(pair), .. } => {
            match &forest.node(child).data {
                NodeData::Terminal { value } => *value == pair.end,
                NodeData::NonTerminal { .. } => false,
            }
        },
        _ => false,
    }
}

/// The index of the child at which the first pass stops.
pub fn first_pass_end(forest: &Forest, left: usize) -> (stop: usize)
    requires
        wf(forest@),
        left < forest@.len(),
        !forest@[left as int].is_terminal,
    ensures
        stop == first_stop(forest@, left, 0),
        stop <= forest@[left as int].children.len(),
{
    let children = forest.node(left).children();
    let mut i: usize = 0;
    while i < children.len()
        invariant
            i <= children.len(),
            wf(forest@),
            left < forest@.len(),
            children@ == forest@[left as int].children,
            first_stop(forest@, left, i as nat) == first_stop(forest@, left, 0),
        decreases children.len() - i,
    {
        proof {
            lemma_child_before(forest@, left as int, i as int);
        }
        if is_block_end(forest, left, children[i]) {
            return i;
        }
        i += 1;
    }
    i
}

/// Merges the interior nodes `left` and `right`, whose children may stand in
/// any order. A first pass goes through the children of `left` up to the
/// terminal that closes its block; a second pass goes through the children of
/// `right` that the first pass has not dealt with.
pub fn unordered_merge(
    forest: &Forest,
    left: usize,
    right: usize,
    base_left_matchings: &Matchings,
    base_right_matchings: &Matchings,
    left_right_matchings: &Matchings,
) -> (merged: Result<MergedCSTNode, MergeError>)
    requires
        sound(scenario_of(forest, base_left_matchings, base_right_matchings, left_right_matchings)),
        left < forest@.len(),
        right < forest@.len(),
        !forest@[left as int].is_terminal,
        !forest@[right as int].is_terminal,
        forest@[left as int].depth == forest@[right as int].depth,
    ensures
        outcome(merged) == unordered_merge_of(
            scenario_of(forest, base_left_matchings, base_right_matchings, left_right_matchings),
            left,
            right,
        ),
        merged.is_ok() ==> forest@[left as int].kind == forest@[right as int].kind,
        merged matches Ok(tree) ==> sound_tree(tree@, forest@),
        forest@[left as int].kind != forest@[right as int].kind ==> outcome(merged) == Err::<
            MergedTree,
            MergeFault,
        >(
            MergeFault::NodesWithDifferentKinds(
                forest@[left as int].kind,
                forest@[right as int].kind,
            ),
        ),
    decreases usize::MAX - forest@[left as int].depth, 1nat,
{
    let ghost s = scenario_of(
        forest,
        base_left_matchings,
        base_right_matchings,
        left_right_matchings,
    );
    let left_node = forest.node(left);
    let right_node = forest.node(right);
    if left_node.kind != right_node.kind {
        return Err(
            MergeError::NodesWithDifferentKinds(left_node.kind.clone(), right_node.kind.clone()),
        );
    }
    let children_left = left_node.children();
    let children_right = right_node.children();
    let n = children_right.len();
    let stop = first_pass_end(forest, left);
    let mut result_children: Vec<MergedCSTNode> = Vec::new();
    let mut processed_nodes: HashSet<usize> = HashSet::new();
    let mut i: usize = 0;
    proof {
        match first_pass(s, left, 0, stop as nat) {
            Ok(rest) => {
                assert(MergedCSTNode::views(result_children@) + rest =~= rest);
            },
            Err(_) => {},
        }
        assert(processed_nodes@ =~= processed(s, left, 0));
    }
    while i < stop
        invariant
            i <= stop,
            stop <= children_left@.len(),
            s == scenario_of(
                forest,
                base_left_matchings,
                base_right_matchings,
                left_right_matchings,
            ),
            sound(s),
            left < forest@.len(),
            right < forest@.len(),
            !forest@[left as int].is_terminal,
            !forest@[right as int].is_terminal,
            forest@[left as int].depth == forest@[right as int].depth,
            forest@[left as int].kind == forest@[right as int].kind,
            children_left@ == forest@[left as int].children,
            stop == first_stop(forest@, left, 0),
            processed_nodes@ == processed(s, left, i as nat),
            prepend(
                MergedCSTNode::views(result_children@),
                first_pass(s, left, i as nat, stop as nat),
            ) == first_pass(s, left, 0, stop as nat),
            all_sided(MergedCSTNode::views(result_children@)),
            all_drawn(MergedCSTNode::views(result_children@), forest@),
        decreases stop - i,
    {
        let left_child = children_left[i];
        proof {
            lemma_child_before(forest@, left as int, i as int);
        }
        let in_base = base_left_matchings.find_matching_for(left_child);
        let in_right = left_right_matchings.find_matching_for(left_child);
        let ghost before = result_children@;
        proof {
            if in_base.is_some() {
                lemma_level_partner(s.base_left, s.f, left_child);
            }
            if in_right.is_some() {
                lemma_level_partner(s.left_right, s.f, left_child);
            }
        }
        match (in_base, in_right) {
            (None, None) => {
                let node = MergedCSTNode::from(forest, left_child);
                proof {
                    lemma_views_push(before, node);
                }
                result_children.push(node);
                processed_nodes.insert(left_child);
            },
            (None, Some(partner)) => {
                match crate::merge::merge(
                    forest,
                    left_child,
                    left_child,
                    partner.matching_node,
                    base_left_matchings,
                    base_right_matchings,
                    left_right_matchings,
                ) {
                    Ok(node) => {
                        proof {
                            lemma_views_push(before, node);
                        }
                        result_children.push(node);
                    },
                    Err(error) => {
                        proof {
                            let fault = Err::<Seq<MergedTree>, MergeFault>(error@);
                            assert(first_emitted(s, left, left_child) == fault);
                            assert(first_pass(s, left, i as nat, stop as nat) == fault);
                        }
                        return Err(error);
                    },
                }
                processed_nodes.insert(left_child);
                processed_nodes.insert(partner.matching_node);
            },
            (Some(base_match), None) => {
                if !base_match.is_perfect_match {
                    let node = conflict_between(forest, Some(left_child), None);
                    proof {
                        lemma_views_push(before, node);
                    }
                    result_children.push(node);
                }
                processed_nodes.insert(left_child);
            },
            (Some(base_match), Some(partner)) => {
                match crate::merge::merge(
                    forest,
                    base_match.matching_node,
                    left_child,
                    partner.matching_node,
                    base_left_matchings,
                    base_right_matchings,
                    left_right_matchings,
                ) {
                    Ok(node) => {
                        proof {
                            lemma_views_push(before, node);
                        }
                        result_children.push(node);
                    },
                    Err(error) => {
                        proof {
                            let fault = Err::<Seq<MergedTree>, MergeFault>(error@);
                            assert(first_emitted(s, left, left_child) == fault);
                            assert(first_pass(s, left, i as nat, stop as nat) == fault);
                        }
                        return Err(error);
                    },
                }
                processed_nodes.insert(left_child);
                processed_nodes.insert(partner.matching_node);
            },
        }
        proof {
            let first = first_emitted(s, left, left_child);
            assert(first.is_ok());
            assert(MergedCSTNode::views(result_children@) =~= MergedCSTNode::views(before)
                + first->Ok_0);
            lemma_prepend_twice(
                MergedCSTNode::views(before),
                first->Ok_0,
                first_pass(s, left, (i + 1) as nat, stop as nat),
            );
            assert(processed_nodes@ =~= processed(s, left, (i + 1) as nat));
        }
        i += 1;
    }
    let ghost done = processed(s, left, stop as nat);
    let mut j: usize = 0;
    proof {
        assert(first_pass(s, left, stop as nat, stop as nat) == Ok::<Seq<MergedTree>, MergeFault>(
            Seq::empty(),
        ));
        assert(MergedCSTNode::views(result_children@) + Seq::<MergedTree>::empty()
            =~= MergedCSTNode::views(result_children@));
        assert(first_pass(s, left, 0, stop as nat) == Ok::<Seq<MergedTree>, MergeFault>(
            MergedCSTNode::views(result_children@),
        ));
    }
    while j < n
        invariant
            j <= n,
            s == scenario_of(
                forest,
                base_left_matchings,
                base_right_matchings,
                left_right_matchings,
            ),
            sound(s),
            left < forest@.len(),
            right < forest@.len(),
            !forest@[left as int].is_terminal,
            !forest@[right as int].is_terminal,
            forest@[left as int].depth == forest@[right as int].depth,
            forest@[left as int].kind == forest@[right as int].kind,
            children_right@ == forest@[right as int].children,
            n == children_right@.len(),
            stop == first_stop(forest@, left, 0),
            done == processed(s, left, stop as nat),
            processed_nodes@ == done,
            prepend(
                MergedCSTNode::views(result_children@),
                second_pass(s, left, right, j as nat, done),
            ) == unordered_children(s, left, right),
            all_sided(MergedCSTNode::views(result_children@)),
            all_drawn(MergedCSTNode::views(result_children@), forest@),
        decreases n - j,
    {
        let right_child = children_right[j];
        proof {
            lemma_child_before(forest@, right as int, j as int);
        }
        let ghost before = result_children@;
        if !processed_nodes.contains(&right_child) {
            let in_base = base_right_matchings.find_matching_for(right_child);
            let in_left = left_right_matchings.find_matching_for(right_child);
            proof {
                if in_left.is_some() {
                    lemma_level_partner(s.left_right, s.f, right_child);
                }
            }
            match (in_base, in_left) {
                (None, None) => {
                    let node = MergedCSTNode::from(forest, right_child);
                    proof {
                        lemma_views_push(before, node);
                    }
                    result_children.push(node);
                },
                (Some(base_match), None) => {
                    if !base_match.is_perfect_match {
                        let node = conflict_between(forest, None, Some(right_child));
                        proof {
                            lemma_views_push(before, node);
                        }
                        result_children.push(node);
                    }
                },
                (_, Some(partner)) => {
                    match crate::merge::merge(
                        forest,
                        right_child,
                        partner.matching_node,
                        right_child,
                        base_left_matchings,
                        base_right_matchings,
                        left_right_matchings,
                    ) {
                        Ok(node) => {
                            proof {
                                lemma_views_push(before, node);
                            }
                            result_children.push(node);
                        },
                        Err(error) => {
                            proof {
                                let fault = Err::<Seq<MergedTree>, MergeFault>(error@);
                                assert(second_emitted(s, left, right_child) == fault);
                                assert(second_pass(s, left, right, j as nat, done) == fault);
                            }
                            return Err(error);
                        },
                    }
                },
            }
            proof {
                let first = second_emitted(s, left, right_child);
                assert(first.is_ok());
                assert(MergedCSTNode::views(result_children@) =~= MergedCSTNode::views(before)
                    + first->Ok_0);
                lemma_prepend_twice(
                    MergedCSTNode::views(before),
                    first->Ok_0,
                    second_pass(s, left, right, (j + 1) as nat, done),
                );
            }
        }
        j += 1;
    }
    proof {
        assert(MergedCSTNode::views(result_children@) + Seq::<MergedTree>::empty()
            =~= MergedCSTNode::views(result_children@));
        assert(interior_drawn(
            forest@,
            forest@[left as int].kind,
            forest@[left as int].leading_white_space,
        )) by {
            assert(!forest@[left as int].is_terminal);
        }
    }
    Ok(
        MergedCSTNode::NonTerminal {
            kind: left_node.kind.clone(),
            children: result_children,
            leading_white_space: crate::forest::clone_option_string(&left_node.leading_white_space),
        },
    )
}

} // verus!

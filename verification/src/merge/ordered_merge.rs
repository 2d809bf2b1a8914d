use vstd::prelude::*;
use crate::forest::{lemma_child_before, wf, Forest};
use crate::matching::matching_entry::Matching;
use crate::matching::matchings::{lemma_level_partner, Matchings};
use crate::merge::merge_error::{MergeError, MergeFault};
use crate::merge::merged_cst_node::{
    all_drawn, all_sided, drawn, interior_drawn, lemma_views_push, sided, sound_tree,
    MergedCSTNode, MergedTree,
};
use crate::merge::{
    conflict_of, decide, emitted, moved, ordered_merge_of, ordered_walk, outcome, prepend,
    scenario_of, sound, step_at, step_for, suffix_from, Action, Advance,
};

verus! {

/// Prepending in two parts is prepending the whole.
pub(crate) proof fn lemma_prepend_twice(
    a: Seq<MergedTree>,
    b: Seq<MergedTree>,
    tail: Result<Seq<MergedTree>, MergeFault>,
)
    ensures
        prepend(a, prepend(b, tail)) == prepend(a + b, tail),
{
    match tail {
        Ok(rest) => {
            assert(a + (b + rest) =~= (a + b) + rest);
        },
        Err(_) => {},
    }
}

/// The base node over which a step merges is the left child itself or the
/// partner that one of the two children has in base.
pub(crate) proof fn lemma_recurse_base(
    bidir: bool,
    lr_l: Option<Matching>,
    bl: Option<Matching>,
    lr_r: Option<Matching>,
    br: Option<Matching>,
    cl: usize,
)
    ensures
        match step_for(bidir, lr_l, bl, lr_r, br, cl).action {
            Action::Recurse { base } => {
                ||| base == cl
                ||| (bl.is_some() && base == bl.unwrap().matching_node)
                ||| (br.is_some() && base == br.unwrap().matching_node)
            },
            _ => true,
        },
{
}

/// Appends the children of `parent` from index `from` on, unchanged.
pub(crate) fn push_rest(forest: &Forest, parent: usize, from: usize, merged: &mut Vec<MergedCSTNode>)
    requires
        wf(forest@),
        parent < forest@.len(),
        !forest@[parent as int].is_terminal,
    ensures
        MergedCSTNode::views(final(merged)@) == MergedCSTNode::views(old(merged)@) + suffix_from(
            forest@,
            parent,
            from as nat,
        ),
        all_sided(MergedCSTNode::views(old(merged)@)) ==> all_sided(
            MergedCSTNode::views(final(merged)@),
        ),
        all_drawn(MergedCSTNode::views(old(merged)@), forest@) ==> all_drawn(
            MergedCSTNode::views(final(merged)@),
            forest@,
        ),
{
    let children = forest.node(parent).children();
    let mut k = from;
    proof {
        assert(MergedCSTNode::views(merged@) + Seq::<MergedTree>::empty() =~= MergedCSTNode::views(
            merged@,
        ));
    }
    if k >= children.len() {
        return ;
    }
    while k < children.len()
        invariant
            from <= k <= children.len(),
            wf(forest@),
            parent < forest@.len(),
            children@ == forest@[parent as int].children,
            MergedCSTNode::views(merged@) + suffix_from(forest@, parent, k as nat)
                == MergedCSTNode::views(old(merged)@) + suffix_from(forest@, parent, from as nat),
            all_sided(MergedCSTNode::views(old(merged)@)) ==> all_sided(
                MergedCSTNode::views(merged@),
            ),
            all_drawn(MergedCSTNode::views(old(merged)@), forest@) ==> all_drawn(
                MergedCSTNode::views(merged@),
                forest@,
            ),
        decreases children.len() - k,
    {
        proof {
            lemma_child_before(forest@, parent as int, k as int);
        }
        let node = MergedCSTNode::from(forest, children[k]);
        proof {
            lemma_views_push(merged@, node);
            assert(MergedCSTNode::views(merged@).push(node@) + suffix_from(
                forest@,
                parent,
                (k + 1) as nat,
            ) =~= MergedCSTNode::views(merged@) + suffix_from(forest@, parent, k as nat));
        }
        merged.push(node);
        k += 1;
    }
    proof {
        assert(MergedCSTNode::views(merged@) + Seq::<MergedTree>::empty() =~= MergedCSTNode::views(
            merged@,
        ));
    }
}

/// A conflict that holds the subtree at `left`, the one at `right`, or both.
pub fn conflict_between(forest: &Forest, left: Option<usize>, right: Option<usize>) -> (node:
    MergedCSTNode)
    requires
        wf(forest@),
        left.is_some() ==> left.unwrap() < forest@.len(),
        right.is_some() ==> right.unwrap() < forest@.len(),
    ensures
        node@ == conflict_of(forest@, left, right),
        left.is_some() || right.is_some() ==> sided(node@),
        drawn(node@, forest@),
{
    MergedCSTNode::Conflict {
        left: match left {
            Some(id) => Some(Box::new(MergedCSTNode::from(forest, id))),
            None => None,
        },
        right: match right {
            Some(id) => Some(Box::new(MergedCSTNode::from(forest, id))),
            None => None,
        },
    }
}

/// Merges the interior nodes `left` and `right`, whose children are walked
/// in order with one cursor on each side.
pub fn ordered_merge(
    forest: &Forest,
    left: usize,
    right: usize,
    base_left_matchings: &Matchings,
    base_right_matchings: &Matchings,
    left_right_matchings: &Matchings,
) -> (merged: Result<MergedCSTNode, MergeError>)
    requires
        sound(scenario_of(forest, base_left_matchings, base_right_matchings, left_right_matchings)),
        left < forest@.len(),
        right < forest@.len(),
        !forest@[left as int].is_terminal,
        !forest@[right as int].is_terminal,
        forest@[left as int].depth == forest@[right as int].depth,
    ensures
        outcome(merged) == ordered_merge_of(
            scenario_of(forest, base_left_matchings, base_right_matchings, left_right_matchings),
            left,
            right,
        ),
        merged.is_ok() ==> forest@[left as int].kind == forest@[right as int].kind,
        merged matches Ok(tree) ==> sound_tree(tree@, forest@),
        forest@[left as int].kind != forest@[right as int].kind ==> outcome(merged) == Err::<
            MergedTree,
            MergeFault,
        >(
            MergeFault::NodesWithDifferentKinds(
                forest@[left as int].kind,
                forest@[right as int].kind,
            ),
        ),
    decreases usize::MAX - forest@[left as int].depth, 1nat,
{
    let ghost s = scenario_of(
        forest,
        base_left_matchings,
        base_right_matchings,
        left_right_matchings,
    );
    let left_node = forest.node(left);
    let right_node = forest.node(right);
    if left_node.kind != right_node.kind {
        return Err(
            MergeError::NodesWithDifferentKinds(left_node.kind.clone(), right_node.kind.clone()),
        );
    }
    let children_left = left_node.children();
    let children_right = right_node.children();
    let m = children_left.len();
    let n = children_right.len();
    let mut result_children: Vec<MergedCSTNode> = Vec::new();
    let mut i: usize = 0;
    let mut j: usize = 0;
    proof {
        match ordered_walk(s, left, right, 0, 0) {
            Ok(rest) => {
                assert(MergedCSTNode::views(result_children@) + rest =~= rest);
            },
            Err(_) => {},
        }
    }
    while i < m && j < n
        invariant
            i <= m,
            j <= n,
            s == scenario_of(
                forest,
                base_left_matchings,
                base_right_matchings,
                left_right_matchings,
            ),
            sound(s),
            left < forest@.len(),
            right < forest@.len(),
            !forest@[left as int].is_terminal,
            !forest@[right as int].is_terminal,
            forest@[left as int].depth == forest@[right as int].depth,
            forest@[left as int].kind == forest@[right as int].kind,
            children_left@ == forest@[left as int].children,
            children_right@ == forest@[right as int].children,
            m == children_left@.len(),
            n == children_right@.len(),
            prepend(MergedCSTNode::views(result_children@), ordered_walk(s, left, right, i as nat, j as nat))
                == ordered_walk(s, left, right, 0, 0),
            all_sided(MergedCSTNode::views(result_children@)),
            all_drawn(MergedCSTNode::views(result_children@), forest@),
        decreases (m - i) + (n - j),
    {
        let cur_left = children_left[i];
        let cur_right = children_right[j];
        proof {
            lemma_child_before(forest@, left as int, i as int);
            lemma_child_before(forest@, right as int, j as int);
        }
        let left_in_right = left_right_matchings.find_matching_for(cur_left);
        let right_in_left = left_right_matchings.find_matching_for(cur_right);
        let left_in_base = base_left_matchings.find_matching_for(cur_left);
        let right_in_base = base_right_matchings.find_matching_for(cur_right);
        let bidirectional = left_in_right.is_some() && right_in_left.is_some();
        let step = decide(
            bidirectional,
            left_in_right,
            left_in_base,
            right_in_left,
            right_in_base,
            cur_left,
        );
        let ghost before = result_children@;
        let ghost next_i = moved(i as nat, step.advance, Advance::Left);
        let ghost next_j = moved(j as nat, step.advance, Advance::Right);
        proof {
            assert(step == step_at(s, left, right, i as nat, j as nat));
            crate::merge::lemma_conflict_implies_divergence(
                bidirectional,
                left_in_right,
                left_in_base,
                right_in_left,
                right_in_base,
                cur_left,
            );
            lemma_recurse_base(
                bidirectional,
                left_in_right,
                left_in_base,
                right_in_left,
                right_in_base,
                cur_left,
            );
            if left_in_base.is_some() {
                lemma_level_partner(s.base_left, s.f, cur_left);
            }
            if right_in_base.is_some() {
                lemma_level_partner(s.base_right, s.f, cur_right);
            }
        }
        match step.action {
            Action::Recurse { base } => {
                match crate::merge::merge(
                    forest,
                    base,
                    cur_left,
                    cur_right,
                    base_left_matchings,
                    base_right_matchings,
                    left_right_matchings,
                ) {
                    Ok(node) => {
                        proof {
                            lemma_views_push(before, node);
                        }
                        result_children.push(node);
                    },
                    Err(error) => {
                        proof {
                            let fault = Err::<Seq<MergedTree>, MergeFault>(error@);
                            assert(emitted(s, left, cur_left, cur_right, step.action) == fault);
                            assert(ordered_walk(s, left, right, i as nat, j as nat) == fault);
                        }
                        return Err(error);
                    },
                }
            },
            Action::Skip => {},
            Action::EmitLeft => {
                let node = MergedCSTNode::from(forest, cur_left);
                proof {
                    lemma_views_push(before, node);
                }
                result_children.push(node);
            },
            Action::EmitRight => {
                let node = MergedCSTNode::from(forest, cur_right);
                proof {
                    lemma_views_push(before, node);
                }
                result_children.push(node);
            },
            Action::Conflict { left: with_left, right: with_right } => {
                let node = conflict_between(
                    forest,
                    if with_left {
                        Some(cur_left)
                    } else {
                        None
                    },
                    if with_right {
                        Some(cur_right)
                    } else {
                        None
                    },
                );
                proof {
                    lemma_views_push(before, node);
                }
                result_children.push(node);
            },
            Action::Fallback => {
                let same = forest.contents(cur_left) == forest.contents(cur_right);
                let node = if same {
                    MergedCSTNode::from(forest, cur_left)
                } else {
                    conflict_between(forest, Some(cur_left), Some(cur_right))
                };
                proof {
                    lemma_views_push(before, node);
                }
                result_children.push(node);
            },
        }
        proof {
            let first = emitted(s, left, cur_left, cur_right, step.action);
            assert(first.is_ok());
            assert(MergedCSTNode::views(result_children@) =~= MergedCSTNode::views(before)
                + first->Ok_0);
            lemma_prepend_twice(
                MergedCSTNode::views(before),
                first->Ok_0,
                ordered_walk(s, left, right, next_i, next_j),
            );
        }
        match step.advance {
            Advance::Left => {
                i += 1;
            },
            Advance::Right => {
                j += 1;
            },
            Advance::Both => {
                i += 1;
                j += 1;
            },
        }
    }
    let ghost joint = MergedCSTNode::views(result_children@);
    push_rest(forest, left, i, &mut result_children);
    push_rest(forest, right, j, &mut result_children);
    proof {
        assert(MergedCSTNode::views(result_children@) =~= joint + (suffix_from(
            forest@,
            left,
            i as nat,
        ) + suffix_from(forest@, right, j as nat)));
    }
    proof {
        assert(interior_drawn(
            forest@,
            forest@[left as int].kind,
            forest@[left as int].leading_white_space,
        )) by {
            assert(!forest@[left as int].is_terminal);
        }
    }
    Ok(
        MergedCSTNode::NonTerminal {
            kind: left_node.kind.clone(),
            children: result_children,
            leading_white_space: crate::forest::clone_option_string(&left_node.leading_white_space),
        },
    )
}

} // verus!

pub mod log_report;
pub mod log_structures;
pub mod merge_error;
pub mod merge_terminals;
pub mod merged_cst_node;
pub mod unchanged;
pub mod ordered_merge;
pub mod unordered_merge;

use vstd::prelude::*;
use crate::forest::{contents, wf, Forest, NodeView};
use crate::matching::matching_entry::Matching;
use crate::matching::matchings::{level, matching_for, MatchedPair, Matchings};
use crate::merge::merge_error::{MergeError, MergeFault};
use crate::merge::merge_terminals::terminals_merged;
use crate::merge::merged_cst_node::{merged_from, MergedCSTNode, MergedTree};

verus! {

/// What a merge works on: the arena and the matchings between base and left,
/// base and right, and left and right.
pub struct Scenario {
    pub f: Seq<NodeView>,
    pub base_left: Seq<MatchedPair>,
    pub base_right: Seq<MatchedPair>,
    pub left_right: Seq<MatchedPair>,
}

/// The scenario of an arena and three sets of matchings.
pub open spec fn scenario_of(
    forest: &Forest,
    base_left: &Matchings,
    base_right: &Matchings,
    left_right: &Matchings,
) -> Scenario {
    Scenario {
        f: forest@,
        base_left: base_left@,
        base_right: base_right@,
        left_right: left_right@,
    }
}

/// The arena is well formed and every matching joins two of its nodes that
/// lie at the same depth.
pub open spec fn sound(s: Scenario) -> bool {
    &&& wf(s.f)
    &&& level(s.base_left, s.f)
    &&& level(s.base_right, s.f)
    &&& level(s.left_right, s.f)
}

/// How many levels can lie below the node `l`.
pub open spec fn room(s: Scenario, l: usize) -> nat {
    (usize::MAX - s.f[l as int].depth) as nat
}

/// The node `child` lies in the arena, below the depth of `parent`.
pub open spec fn deeper(s: Scenario, parent: usize, child: usize) -> bool {
    child < s.f.len() && s.f[child as int].depth > s.f[parent as int].depth
}

/// The view of what a merge returns.
pub open spec fn outcome(result: Result<MergedCSTNode, MergeError>) -> Result<
    MergedTree,
    MergeFault,
> {
    match result {
        Ok(node) => Ok(node@),
        Err(error) => Err(error@),
    }
}

/// The trees `head`, followed by the trees of `tail` where there is no fault.
pub open spec fn prepend(
    head: Seq<MergedTree>,
    tail: Result<Seq<MergedTree>, MergeFault>,
) -> Result<Seq<MergedTree>, MergeFault> {
    match tail {
        Ok(rest) => Ok(head + rest),
        Err(fault) => Err(fault),
    }
}

/// One merged tree as a sequence, or its fault.
pub open spec fn single(tree: Result<MergedTree, MergeFault>) -> Result<
    Seq<MergedTree>,
    MergeFault,
> {
    match tree {
        Ok(t) => Ok(seq![t]),
        Err(fault) => Err(fault),
    }
}

/// The interior node of the kind and white space of `l` over the given
/// children, or the fault that the children ended in.
pub open spec fn non_terminal_over(
    f: Seq<NodeView>,
    l: usize,
    children: Result<Seq<MergedTree>, MergeFault>,
) -> Result<MergedTree, MergeFault> {
    match children {
        Ok(trees) => Ok(
            MergedTree::NonTerminal {
                kind: f[l as int].kind,
                children: trees,
                leading_white_space: f[l as int].leading_white_space,
            },
        ),
        Err(fault) => Err(fault),
    }
}

/// A conflict between the subtrees at `l` and `r`, each where it is given.
pub open spec fn conflict_of(f: Seq<NodeView>, l: Option<usize>, r: Option<usize>) -> MergedTree {
    MergedTree::Conflict {
        left: match l {
            Some(id) => Some(Box::new(merged_from(f, id as int))),
            None => None,
        },
        right: match r {
            Some(id) => Some(Box::new(merged_from(f, id as int))),
            None => None,
        },
    }
}

/// What is done with the two children under the cursors of an ordered merge.
#[derive(Clone, Copy, Debug, PartialEq, Eq)]
pub enum Action {
    /// Merge the two children over the base node given.
    Recurse { base: usize },
    /// Emit nothing.
    Skip,
    /// Emit the left child as it is.
    EmitLeft,
    /// Emit the right child as it is.
    EmitRight,
    /// Emit a conflict that holds the left child, the right child, or both.
    Conflict { left: bool, right: bool },
    /// Emit the left child if both children hold the same text, else a
    /// conflict of the two.
    Fallback,
}

/// Which cursors move on.
#[derive(Clone, Copy, Debug, PartialEq, Eq)]
pub enum Advance {
    Left,
    Right,
    Both,
}

/// One step of an ordered merge.
#[derive(Clone, Copy, Debug, PartialEq, Eq)]
pub struct Step {
    pub action: Action,
    pub advance: Advance,
}

/// The step that an ordered merge takes on the left child `cl` and the right
/// child under its cursors, given whether both have a partner on the other
/// side (`bidir`), the partner of the left child on the right (`lr_l`) and in
/// base (`bl`), and the partner of the right child on the left (`lr_r`) and in
/// base (`br`).
///
/// Two children that both have a partner on the other side are merged, over
/// the partner that the left child has in base, else over the one that the
/// right child has, else over the left child itself. Where only one of the
/// two has a partner on the other side, the other one is dealt with alone: it
/// is left out where it is the perfect match of a node of base, a conflict
/// where it is an imperfect one, and emitted where base does not know it. Of
/// two children without
/// partners on the other side, those that are imperfect matches of nodes of
/// base make up the conflict; where only one of them is known to base, the
/// other is emitted if the known one is a perfect match, and both are in
/// conflict if it is not; two children that base does not know are in
/// conflict. Any other combination falls back to a comparison of the texts.
pub open spec fn step_for(
    bidir: bool,
    lr_l: Option<Matching>,
    bl: Option<Matching>,
    lr_r: Option<Matching>,
    br: Option<Matching>,
    cl: usize,
) -> Step {
    match (bidir, lr_l, bl, lr_r, br) {
        (true, Some(_), Some(b), Some(_), _) => Step {
            action: Action::Recurse { base: b.matching_node },
            advance: Advance::Both,
        },
        (true, Some(_), None, Some(_), None) => Step {
            action: Action::Recurse { base: cl },
            advance: Advance::Both,
        },
        (true, Some(_), None, Some(_), Some(b)) => Step {
            action: Action::Recurse { base: b.matching_node },
            advance: Advance::Both,
        },
        (false, Some(_), _, None, Some(b)) => Step {
            action: if b.is_perfect_match {
                Action::Skip
            } else {
                Action::Conflict { left: false, right: true }
            },
            advance: Advance::Right,
        },
        (false, Some(_), _, None, None) => Step {
            action: Action::EmitRight,
            advance: Advance::Right,
        },
        (false, None, Some(b), Some(_), _) => Step {
            action: if b.is_perfect_match {
                Action::Skip
            } else {
                Action::Conflict { left: true, right: false }
            },
            advance: Advance::Left,
        },
        (false, None, None, Some(_), _) => Step {
            action: Action::EmitLeft,
            advance: Advance::Left,
        },
        (false, None, Some(b_left), None, Some(b_right)) => Step {
            action: if b_left.is_perfect_match && b_right.is_perfect_match {
                Action::Skip
            } else if b_left.is_perfect_match {
                Action::Conflict { left: false, right: true }
            } else if b_right.is_perfect_match {
                Action::Conflict { left: true, right: false }
            } else {
                Action::Conflict { left: true, right: true }
            },
            advance: Advance::Both,
        },
        (false, None, Some(b), None, None) => Step {
            action: if b.is_perfect_match {
                Action::EmitRight
            } else {
                Action::Conflict { left: true, right: true }
            },
            advance: Advance::Both,
        },
        (false, None, None, None, Some(b)) => Step {
            action: if b.is_perfect_match {
                Action::EmitLeft
            } else {
                Action::Conflict { left: true, right: true }
            },
            advance: Advance::Both,
        },
        (false, None, None, None, None) => Step {
            action: Action::Conflict { left: true, right: true },
            advance: Advance::Both,
        },
        _ => Step { action: Action::Fallback, advance: Advance::Both },
    }
}

/// The side-swapped step: left and right change places.
pub open spec fn mirrored(step: Step) -> Step {
    Step {
        action: match step.action {
            Action::EmitLeft => Action::EmitRight,
            Action::EmitRight => Action::EmitLeft,
            Action::Conflict { left, right } => Action::Conflict { left: right, right: left },
            other => other,
        },
        advance: match step.advance {
            Advance::Left => Advance::Right,
            Advance::Right => Advance::Left,
            Advance::Both => Advance::Both,
        },
    }
}

/// The children of `p` from index `from` on, as merged trees, unchanged.
pub open spec fn suffix_from(f: Seq<NodeView>, p: usize, from: nat) -> Seq<MergedTree>
    decreases f[p as int].children.len() - from,
{
    if from >= f[p as int].children.len() {
        Seq::empty()
    } else {
        seq![merged_from(f, f[p as int].children[from as int] as int)] + suffix_from(
            f,
            p,
            from + 1,
        )
    }
}

/// The index of the cursor `i` after a step, on the side that `side` names.
pub open spec fn moved(i: nat, advance: Advance, side: Advance) -> nat {
    if advance == Advance::Both || advance == side {
        i + 1
    } else {
        i
    }
}

/// What a step of an ordered merge emits for the left child `cl` and the
/// right child `cr` of `l`.
pub open spec fn emitted(s: Scenario, l: usize, cl: usize, cr: usize, action: Action) -> Result<
    Seq<MergedTree>,
    MergeFault,
>
    decreases room(s, l), 0nat, 0nat,
{
    match action {
        Action::Recurse { base } => if deeper(s, l, cl) {
            single(merge_of(s, base, cl, cr))
        } else {
            Err(MergeFault::MergingTerminalWithNonTerminal)
        },
        Action::Skip => Ok(Seq::empty()),
        Action::EmitLeft => Ok(seq![merged_from(s.f, cl as int)]),
        Action::EmitRight => Ok(seq![merged_from(s.f, cr as int)]),
        Action::Conflict { left, right } => Ok(
            seq![
                conflict_of(
                    s.f,
                    if left {
                        Some(cl)
                    } else {
                        None
                    },
                    if right {
                        Some(cr)
                    } else {
                        None
                    },
                ),
            ],
        ),
        Action::Fallback => if contents(s.f, cl as int) == contents(s.f, cr as int) {
            Ok(seq![merged_from(s.f, cl as int)])
        } else {
            Ok(seq![conflict_of(s.f, Some(cl), Some(cr))])
        },
    }
}

/// The step that an ordered merge of `l` and `r` takes with its cursors at
/// `i` and `j`.
pub open spec fn step_at(s: Scenario, l: usize, r: usize, i: nat, j: nat) -> Step {
    let cl = s.f[l as int].children[i as int];
    let cr = s.f[r as int].children[j as int];
    let lr_l = matching_for(s.left_right, cl);
    let lr_r = matching_for(s.left_right, cr);
    step_for(
        lr_l.is_some() && lr_r.is_some(),
        lr_l,
        matching_for(s.base_left, cl),
        lr_r,
        matching_for(s.base_right, cr),
        cl,
    )
}

/// What an ordered merge of `l` and `r` emits from the cursors `i` and `j`
/// on: step by step while both sides have a child left, then what is left of
/// the left side and what is left of the right side.
pub open spec fn ordered_walk(s: Scenario, l: usize, r: usize, i: nat, j: nat) -> Result<
    Seq<MergedTree>,
    MergeFault,
>
    decreases room(s, l), 1nat, (s.f[l as int].children.len() - i) + (s.f[r as int].children.len() - j),
{
    if i >= s.f[l as int].children.len() || j >= s.f[r as int].children.len() {
        Ok(suffix_from(s.f, l, i) + suffix_from(s.f, r, j))
    } else {
        let step = step_at(s, l, r, i, j);
        match emitted(
            s,
            l,
            s.f[l as int].children[i as int],
            s.f[r as int].children[j as int],
            step.action,
        ) {
            Ok(first) => prepend(
                first,
                ordered_walk(
                    s,
                    l,
                    r,
                    moved(i, step.advance, Advance::Left),
                    moved(j, step.advance, Advance::Right),
                ),
            ),
            Err(fault) => Err(fault),
        }
    }
}

/// The merge of two interior nodes whose children stand in order.
pub open spec fn ordered_merge_of(s: Scenario, l: usize, r: usize) -> Result<MergedTree, MergeFault>
    decreases room(s, l), 2nat, 0nat,
{
    if s.f[l as int].kind != s.f[r as int].kind {
        Err(MergeFault::NodesWithDifferentKinds(s.f[l as int].kind, s.f[r as int].kind))
    } else {
        non_terminal_over(s.f, l, ordered_walk(s, l, r, 0, 0))
    }
}

/// The node `c` is the terminal that closes the block of `l`.
pub open spec fn closes_block(f: Seq<NodeView>, l: usize, c: usize) -> bool {
    match f[l as int].delimiters {
        Some(pair) => f[c as int].is_terminal && f[c as int].value == pair.1,
        None => false,
    }
}

/// The index of the child of `l` at which the first pass of an unordered
/// merge stops: the first one from `i` on that closes the block of `l`, or
/// the number of children.
pub open spec fn first_stop(f: Seq<NodeView>, l: usize, i: nat) -> nat
    decreases f[l as int].children.len() - i,
{
    if i >= f[l as int].children.len() {
        f[l as int].children.len()
    } else if closes_block(f, l, f[l as int].children[i as int]) {
        i
    } else {
        first_stop(f, l, i + 1)
    }
}

/// The nodes that the first pass has dealt with once it has gone through
/// the first `upto` children of `l`: these children and their partners on
/// the right.
pub open spec fn processed(s: Scenario, l: usize, upto: nat) -> Set<usize>
    decreases upto,
{
    if upto == 0 {
        Set::empty()
    } else {
        let c = s.f[l as int].children[upto - 1];
        match matching_for(s.left_right, c) {
            Some(partner) => processed(s, l, (upto - 1) as nat).insert(c).insert(
                partner.matching_node,
            ),
            None => processed(s, l, (upto - 1) as nat).insert(c),
        }
    }
}

/// What the first pass of an unordered merge emits for the left child `cl`.
pub open spec fn first_emitted(s: Scenario, l: usize, cl: usize) -> Result<
    Seq<MergedTree>,
    MergeFault,
>
    decreases room(s, l), 0nat, 0nat,
{
    match (matching_for(s.base_left, cl), matching_for(s.left_right, cl)) {
        (None, None) => Ok(seq![merged_from(s.f, cl as int)]),
        (None, Some(in_right)) => if deeper(s, l, cl) {
            single(merge_of(s, cl, cl, in_right.matching_node))
        } else {
            Err(MergeFault::MergingTerminalWithNonTerminal)
        },
        (Some(in_base), None) => if in_base.is_perfect_match {
            Ok(Seq::empty())
        } else {
            Ok(seq![conflict_of(s.f, Some(cl), None)])
        },
        (Some(in_base), Some(in_right)) => if deeper(s, l, cl) {
            single(merge_of(s, in_base.matching_node, cl, in_right.matching_node))
        } else {
            Err(MergeFault::MergingTerminalWithNonTerminal)
        },
    }
}

/// What the first pass of an unordered merge emits from the child `i` of `l`
/// on, up to the child at which it stops.
pub open spec fn first_pass(s: Scenario, l: usize, i: nat, stop: nat) -> Result<
    Seq<MergedTree>,
    MergeFault,
>
    decreases room(s, l), 1nat, stop - i,
{
    if i >= stop {
        Ok(Seq::empty())
    } else {
        match first_emitted(s, l, s.f[l as int].children[i as int]) {
            Ok(first) => prepend(first, first_pass(s, l, i + 1, stop)),
            Err(fault) => Err(fault),
        }
    }
}

/// What the second pass of an unordered merge emits for the right child `cr`.
pub open spec fn second_emitted(s: Scenario, l: usize, cr: usize) -> Result<
    Seq<MergedTree>,
    MergeFault,
>
    decreases room(s, l), 0nat, 0nat,
{
    match (matching_for(s.base_right, cr), matching_for(s.left_right, cr)) {
        (None, None) => Ok(seq![merged_from(s.f, cr as int)]),
        (Some(in_base), None) => if in_base.is_perfect_match {
            Ok(Seq::empty())
        } else {
            Ok(seq![conflict_of(s.f, None, Some(cr))])
        },
        (_, Some(in_left)) => if deeper(s, l, in_left.matching_node) {
            single(merge_of(s, cr, in_left.matching_node, cr))
        } else {
            Err(MergeFault::MergingTerminalWithNonTerminal)
        },
    }
}

/// What the second pass of an unordered merge emits from the child `j` of
/// `r` on: it leaves out the nodes that the first pass has dealt with.
pub open spec fn second_pass(s: Scenario, l: usize, r: usize, j: nat, done: Set<usize>) -> Result<
    Seq<MergedTree>,
    MergeFault,
>
    decreases room(s, l), 1nat, s.f[r as int].children.len() - j,
{
    if j >= s.f[r as int].children.len() {
        Ok(Seq::empty())
    } else if done.contains(s.f[r as int].children[j as int]) {
        second_pass(s, l, r, j + 1, done)
    } else {
        match second_emitted(s, l, s.f[r as int].children[j as int]) {
            Ok(first) => prepend(first, second_pass(s, l, r, j + 1, done)),
            Err(fault) => Err(fault),
        }
    }
}

/// The children of an unordered merge: what the first pass emits, then what
/// the second pass emits.
pub open spec fn unordered_children(s: Scenario, l: usize, r: usize) -> Result<
    Seq<MergedTree>,
    MergeFault,
>
    decreases room(s, l), 2nat, 0nat,
{
    let stop = first_stop(s.f, l, 0);
    match first_pass(s, l, 0, stop) {
        Ok(first) => prepend(first, second_pass(s, l, r, 0, processed(s, l, stop))),
        Err(fault) => Err(fault),
    }
}

/// The merge of two interior nodes whose children may stand in any order.
pub open spec fn unordered_merge_of(s: Scenario, l: usize, r: usize) -> Result<
    MergedTree,
    MergeFault,
>
    decreases room(s, l), 3nat, 0nat,
{
    if s.f[l as int].kind != s.f[r as int].kind {
        Err(MergeFault::NodesWithDifferentKinds(s.f[l as int].kind, s.f[r as int].kind))
    } else {
        non_terminal_over(s.f, l, unordered_children(s, l, r))
    }
}

/// The merge of the nodes `l` and `r` over the base node `b`.
pub open spec fn merge_of(s: Scenario, b: usize, l: usize, r: usize) -> Result<
    MergedTree,
    MergeFault,
>
    decreases room(s, l), 4nat, 0nat,
{
    if b >= s.f.len() || l >= s.f.len() || r >= s.f.len() {
        Err(MergeFault::MergingTerminalWithNonTerminal)
    } else if s.f[b as int].is_terminal && s.f[l as int].is_terminal && s.f[r as int].is_terminal {
        Ok(terminals_merged(s.f, b, l, r))
    } else if !s.f[b as int].is_terminal && !s.f[l as int].is_terminal
        && !s.f[r as int].is_terminal {
        if s.f[l as int].are_children_unordered && s.f[r as int].are_children_unordered {
            unordered_merge_of(s, l, r)
        } else {
            ordered_merge_of(s, l, r)
        }
    } else {
        Err(MergeFault::MergingTerminalWithNonTerminal)
    }
}

/// The match `m` is there and is perfect.
pub open spec fn is_perfect(m: Option<Matching>) -> bool {
    match m {
        Some(found) => found.is_perfect_match,
        None => false,
    }
}

/// Swapping the sides of an ordered merge mirrors its steps. With left and
/// right exchanged, a step that merges the two children merges them again,
/// and every other step becomes its mirror image: what was emitted from the
/// left is emitted from the right, the sides of a conflict change places,
/// and the other cursor moves.
pub proof fn lemma_swapped_sides_mirror_the_step(
    bidir: bool,
    lr_l: Option<Matching>,
    bl: Option<Matching>,
    lr_r: Option<Matching>,
    br: Option<Matching>,
    cl: usize,
    cr: usize,
)
    ensures
        ({
            let step = step_for(bidir, lr_l, bl, lr_r, br, cl);
            let swapped = step_for(bidir, lr_r, br, lr_l, bl, cr);
            match step.action {
                Action::Recurse { .. } => swapped.action is Recurse && swapped.advance
                    == Advance::Both && step.advance == Advance::Both,
                _ => swapped == mirrored(step),
            }
        }),
{
}

/// A step emits a conflict only where the two sides diverged: the two
/// children are not partners of each other, and at least one of them is not
/// the perfect match of a node of base. The conflict holds at least one of
/// the two children, and none that is the perfect match of a node of base:
/// what it holds was changed, or is not known to base.
pub proof fn lemma_conflict_implies_divergence(
    bidir: bool,
    lr_l: Option<Matching>,
    bl: Option<Matching>,
    lr_r: Option<Matching>,
    br: Option<Matching>,
    cl: usize,
)
    ensures
        step_for(bidir, lr_l, bl, lr_r, br, cl).action is Conflict ==> {
            &&& !bidir
            &&& !(lr_l.is_some() && lr_r.is_some())
            &&& !(is_perfect(bl) && is_perfect(br))
        },
        step_for(bidir, lr_l, bl, lr_r, br, cl).action matches Action::Conflict { left, right }
            ==> {
            &&& left || right
            &&& left ==> !is_perfect(bl)
            &&& right ==> !is_perfect(br)
        },
{
}

/// Every step moves a cursor, and a step that merges two children is taken
/// only for children that both have a partner on the other side.
pub proof fn lemma_step_makes_progress(
    bidir: bool,
    lr_l: Option<Matching>,
    bl: Option<Matching>,
    lr_r: Option<Matching>,
    br: Option<Matching>,
    cl: usize,
    i: nat,
    j: nat,
)
    ensures
        ({
            let step = step_for(bidir, lr_l, bl, lr_r, br, cl);
            &&& moved(i, step.advance, Advance::Left) + moved(j, step.advance, Advance::Right) > i
                + j
            &&& step.action is Recurse ==> bidir && lr_l.is_some() && lr_r.is_some()
        }),
{
}

/// Decides the step of an ordered merge.
pub fn decide(
    bidir: bool,
    lr_l: Option<Matching>,
    bl: Option<Matching>,
    lr_r: Option<Matching>,
    br: Option<Matching>,
    cl: usize,
) -> (step: Step)
    ensures
        step == step_for(bidir, lr_l, bl, lr_r, br, cl),
{
    match (bidir, lr_l, bl, lr_r, br) {
        (true, Some(_), Some(b), Some(_), _) => Step {
            action: Action::Recurse { base: b.matching_node },
            advance: Advance::Both,
        },
        (true, Some(_), None, Some(_), None) => Step {
            action: Action::Recurse { base: cl },
            advance: Advance::Both,
        },
        (true, Some(_), None, Some(_), Some(b)) => Step {
            action: Action::Recurse { base: b.matching_node },
            advance: Advance::Both,
        },
        (false, Some(_), _, None, Some(b)) => Step {
            action: if b.is_perfect_match {
                Action::Skip
            } else {
                Action::Conflict { left: false, right: true }
            },
            advance: Advance::Right,
        },
        (false, Some(_), _, None, None) => Step {
            action: Action::EmitRight,
            advance: Advance::Right,
        },
        (false, None, Some(b), Some(_), _) => Step {
            action: if b.is_perfect_match {
                Action::Skip
            } else {
                Action::Conflict { left: true, right: false }
            },
            advance: Advance::Left,
        },
        (false, None, None, Some(_), _) => Step {
            action: Action::EmitLeft,
            advance: Advance::Left,
        },
        (false, None, Some(b_left), None, Some(b_right)) => Step {
            action: if b_left.is_perfect_match && b_right.is_perfect_match {
                Action::Skip
            } else if b_left.is_perfect_match {
                Action::Conflict { left: false, right: true }
            } else if b_right.is_perfect_match {
                Action::Conflict { left: true, right: false }
            } else {
                Action::Conflict { left: true, right: true }
            },
            advance: Advance::Both,
        },
        (false, None, Some(b), None, None) => Step {
            action: if b.is_perfect_match {
                Action::EmitRight
            } else {
                Action::Conflict { left: true, right: true }
            },
            advance: Advance::Both,
        },
        (false, None, None, None, Some(b)) => Step {
            action: if b.is_perfect_match {
                Action::EmitLeft
            } else {
                Action::Conflict { left: true, right: true }
            },
            advance: Advance::Both,
        },
        (false, None, None, None, None) => Step {
            action: Action::Conflict { left: true, right: true },
            advance: Advance::Both,
        },
        _ => Step { action: Action::Fallback, advance: Advance::Both },
    }
}

/// Merges the nodes `left` and `right` over the node `base`: three terminals
/// by their values, three interior nodes by their children, in any order
/// where both sides allow it and in the given order else.
pub fn merge(
    forest: &Forest,
    base: usize,
    left: usize,
    right: usize,
    base_left_matchings: &Matchings,
    base_right_matchings: &Matchings,
    left_right_matchings: &Matchings,
) -> (merged: Result<MergedCSTNode, MergeError>)
    requires
        sound(scenario_of(forest, base_left_matchings, base_right_matchings, left_right_matchings)),
        base < forest@.len(),
        left < forest@.len(),
        right < forest@.len(),
        forest@[left as int].depth == forest@[right as int].depth,
    ensures
        outcome(merged) == merge_of(
            scenario_of(forest, base_left_matchings, base_right_matchings, left_right_matchings),
            base,
            left,
            right,
        ),
        merged.is_ok() ==> forest@[left as int].is_terminal == forest@[right as int].is_terminal
            && forest@[left as int].is_terminal == forest@[base as int].is_terminal,
        merged.is_ok() && !forest@[left as int].is_terminal ==> forest@[left as int].kind
            == forest@[right as int].kind,
        merged matches Ok(tree) ==> merged_cst_node::sound_tree(tree@, forest@),
    decreases usize::MAX - forest@[left as int].depth, 2nat,
{
    let base_node = forest.node(base);
    let left_node = forest.node(left);
    let right_node = forest.node(right);
    if base_node.is_terminal() && left_node.is_terminal() && right_node.is_terminal() {
        Ok(merge_terminals::merge_terminals(forest, base, left, right))
    } else if !base_node.is_terminal() && !left_node.is_terminal() && !right_node.is_terminal() {
        if left_node.are_children_unordered() && right_node.are_children_unordered() {
            unordered_merge::unordered_merge(
                forest,
                left,
                right,
                base_left_matchings,
                base_right_matchings,
                left_right_matchings,
            )
        } else {
            ordered_merge::ordered_merge(
                forest,
                left,
                right,
                base_left_matchings,
                base_right_matchings,
                left_right_matchings,
            )
        }
    } else {
        Err(MergeError::MergingTerminalWithNonTerminal)
    }
}

} // verus!

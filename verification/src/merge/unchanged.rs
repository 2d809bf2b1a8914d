use vstd::prelude::*;
use crate::forest::{lemma_child_before, wf, NodeView};
use crate::matching::matchings::matching_for;
use crate::matching::matchings_of;
use crate::matching::unchanged::{lemma_matching_with_itself, pairs_with_itself, plain};
use crate::merge::merge_error::MergeFault;
use crate::merge::merged_cst_node::{
    conflicted, lemma_unchanged_renders_source, merged_from, merged_from_children, rendered,
    source_text, MergedTree,
};
use crate::merge::{
    closes_block, deeper, emitted, first_emitted, first_pass, first_stop, merge_of,
    non_terminal_over, ordered_walk, processed, second_emitted, second_pass, step_at, suffix_from,
    unordered_merge_of, Action, Advance, Scenario,
};

verus! {

/// In the scenario `s`, every node of the subtree at `x` is its own partner
/// in base, in left and in right.
pub open spec fn unchanged(s: Scenario, x: usize) -> bool {
    &&& pairs_with_itself(s.base_left, s.f, x)
    &&& pairs_with_itself(s.base_right, s.f, x)
    &&& pairs_with_itself(s.left_right, s.f, x)
}

/// The children of `p` from index `from` up to `to`, as merged trees,
/// unchanged.
pub open spec fn between(f: Seq<NodeView>, p: usize, from: nat, to: nat) -> Seq<MergedTree>
    decreases to - from,
{
    if from >= to {
        Seq::empty()
    } else {
        seq![merged_from(f, f[p as int].children[from as int] as int)] + between(
            f,
            p,
            from + 1,
            to,
        )
    }
}

/// The children from an index on are the children from that index up to
/// the last.
proof fn lemma_between_is_suffix(f: Seq<NodeView>, p: usize, from: nat)
    ensures
        suffix_from(f, p, from) == between(f, p, from, f[p as int].children.len()),
    decreases f[p as int].children.len() - from,
{
    if from < f[p as int].children.len() {
        lemma_between_is_suffix(f, p, from + 1);
    }
}

/// The children between two indices grow by the child at the upper index.
proof fn lemma_between_grows(f: Seq<NodeView>, p: usize, from: nat, to: nat)
    requires
        from <= to,
    ensures
        between(f, p, from, to + 1) == between(f, p, from, to).push(
            merged_from(f, f[p as int].children[to as int] as int),
        ),
    decreases to - from,
{
    if from < to {
        lemma_between_grows(f, p, from + 1, to);
        assert(between(f, p, from, to + 1) =~= between(f, p, from, to).push(
            merged_from(f, f[p as int].children[to as int] as int),
        ));
    } else {
        assert(between(f, p, to + 1, to + 1) =~= Seq::<MergedTree>::empty());
        assert(between(f, p, from, to + 1) =~= between(f, p, from, to).push(
            merged_from(f, f[p as int].children[to as int] as int),
        ));
    }
}

/// The children between two indices are those up to an index between the
/// two, followed by those from that index on.
proof fn lemma_between_joins(f: Seq<NodeView>, p: usize, from: nat, mid: nat, to: nat)
    requires
        from <= mid <= to,
    ensures
        between(f, p, from, mid) + between(f, p, mid, to) == between(f, p, from, to),
    decreases mid - from,
{
    if from < mid {
        lemma_between_joins(f, p, from + 1, mid, to);
        assert(between(f, p, from, mid) + between(f, p, mid, to) =~= between(f, p, from, to));
    } else {
        assert(between(f, p, from, mid) + between(f, p, mid, to) =~= between(f, p, from, to));
    }
}

/// The children from the first up to an index are the first children of the
/// node.
proof fn lemma_between_is_all(f: Seq<NodeView>, p: usize, upto: nat)
    requires
        wf(f),
        p < f.len(),
        upto <= f[p as int].children.len(),
    ensures
        between(f, p, 0, upto) == merged_from_children(f, p as int, upto),
    decreases upto,
{
    if upto > 0 {
        lemma_child_before(f, p as int, upto - 1);
        lemma_between_is_all(f, p, (upto - 1) as nat);
        lemma_between_grows(f, p, 0, (upto - 1) as nat);
    }
}

/// Where nothing changed in a subtree, nothing changed below its children.
proof fn lemma_child_unchanged(s: Scenario, x: usize, k: int)
    requires
        wf(s.f),
        x < s.f.len(),
        0 <= k < s.f[x as int].children.len(),
        unchanged(s, x),
    ensures
        unchanged(s, s.f[x as int].children[k]),
        s.f[x as int].children[k] < x,
        deeper(s, x, s.f[x as int].children[k]),
        s.f[x as int].first <= s.f[x as int].children[k],
{
    lemma_child_before(s.f, x as int, k);
    let c = s.f[x as int].children[k];
    assert forall|y: usize| s.f[c as int].first <= y <= c implies (#[trigger] matching_for(
        s.base_left,
        y,
    )).is_some() && matching_for(s.base_left, y).unwrap().matching_node == y by {}
    assert forall|y: usize| s.f[c as int].first <= y <= c implies (#[trigger] matching_for(
        s.base_right,
        y,
    )).is_some() && matching_for(s.base_right, y).unwrap().matching_node == y by {}
    assert forall|y: usize| s.f[c as int].first <= y <= c implies (#[trigger] matching_for(
        s.left_right,
        y,
    )).is_some() && matching_for(s.left_right, y).unwrap().matching_node == y by {}
}

/// The children of a node stand at different indices.
proof fn lemma_children_differ(f: Seq<NodeView>, x: usize, i: int, j: int)
    requires
        wf(f),
        x < f.len(),
        0 <= i < j < f[x as int].children.len(),
    ensures
        f[x as int].children[i] < f[x as int].children[j],
    decreases j - i,
{
    lemma_child_before(f, x as int, j);
    if i < j - 1 {
        lemma_children_differ(f, x, i, j - 1);
    }
}

/// Merging a tree with itself, over matchings that pair every node with
/// itself, gives the tree unchanged.
pub proof fn lemma_merge_with_itself(s: Scenario, x: usize)
    requires
        wf(s.f),
        x < s.f.len(),
        unchanged(s, x),
    ensures
        merge_of(s, x, x, x) == Ok::<MergedTree, MergeFault>(merged_from(s.f, x as int)),
    decreases x, 3nat, 0nat,
{
    let f = s.f;
    let n = f[x as int].children.len();
    if f[x as int].is_terminal {
    } else {
        lemma_between_is_all(f, x, n);
        if f[x as int].are_children_unordered {
            lemma_unordered_with_itself(s, x);
        } else {
            lemma_walk_with_itself(s, x, 0);
            lemma_between_is_suffix(f, x, 0);
        }
    }
}

/// An ordered merge of a node with itself, where nothing changed, emits the
/// children of the node as they are.
proof fn lemma_walk_with_itself(s: Scenario, x: usize, i: nat)
    requires
        wf(s.f),
        x < s.f.len(),
        !s.f[x as int].is_terminal,
        unchanged(s, x),
        i <= s.f[x as int].children.len(),
    ensures
        ordered_walk(s, x, x, i, i) == Ok::<Seq<MergedTree>, MergeFault>(suffix_from(s.f, x, i)),
    decreases x, 2nat, s.f[x as int].children.len() - i,
{
    let f = s.f;
    let n = f[x as int].children.len();
    if i >= n {
        assert(suffix_from(f, x, i) + suffix_from(f, x, i) =~= suffix_from(f, x, i));
    } else {
        let c = f[x as int].children[i as int];
        lemma_child_unchanged(s, x, i as int);
        lemma_merge_with_itself(s, c);
        lemma_walk_with_itself(s, x, i + 1);
        let step = step_at(s, x, x, i, i);
        assert(step.action == Action::Recurse { base: c });
        assert(step.advance == Advance::Both);
        assert(emitted(s, x, c, c, step.action) == Ok::<Seq<MergedTree>, MergeFault>(
            seq![merged_from(f, c as int)],
        ));
    }
}

/// The first pass of an unordered merge of a node with itself, where
/// nothing changed, emits the children that it goes through as they are.
proof fn lemma_first_pass_with_itself(s: Scenario, x: usize, i: nat, stop: nat)
    requires
        wf(s.f),
        x < s.f.len(),
        !s.f[x as int].is_terminal,
        unchanged(s, x),
        i <= stop <= s.f[x as int].children.len(),
    ensures
        first_pass(s, x, i, stop) == Ok::<Seq<MergedTree>, MergeFault>(between(s.f, x, i, stop)),
    decreases x, 2nat, stop - i,
{
    let f = s.f;
    if i < stop {
        let c = f[x as int].children[i as int];
        lemma_child_unchanged(s, x, i as int);
        lemma_merge_with_itself(s, c);
        lemma_first_pass_with_itself(s, x, i + 1, stop);
        assert(first_emitted(s, x, c) == Ok::<Seq<MergedTree>, MergeFault>(
            seq![merged_from(f, c as int)],
        ));
    }
}

/// What the first pass has dealt with are the children that it went through.
proof fn lemma_processed_with_itself(s: Scenario, x: usize, upto: nat, y: usize)
    requires
        wf(s.f),
        x < s.f.len(),
        unchanged(s, x),
        upto <= s.f[x as int].children.len(),
    ensures
        processed(s, x, upto).contains(y) <==> exists|k: int|
            0 <= k < upto && s.f[x as int].children[k] == y,
    decreases upto,
{
    if upto > 0 {
        lemma_child_unchanged(s, x, upto - 1);
        lemma_processed_with_itself(s, x, (upto - 1) as nat, y);
        let c = s.f[x as int].children[upto - 1];
        if processed(s, x, upto).contains(y) {
            if y == c {
                assert(s.f[x as int].children[upto - 1] == y);
            } else {
                let k = choose|k: int| 0 <= k < upto - 1 && s.f[x as int].children[k] == y;
                assert(0 <= k < upto && s.f[x as int].children[k] == y);
            }
        }
    }
}

/// The second pass of an unordered merge of a node with itself, where
/// nothing changed, emits the children that the first pass left as they are.
proof fn lemma_second_pass_with_itself(s: Scenario, x: usize, j: nat, stop: nat)
    requires
        wf(s.f),
        x < s.f.len(),
        !s.f[x as int].is_terminal,
        unchanged(s, x),
        stop <= s.f[x as int].children.len(),
        j <= s.f[x as int].children.len(),
    ensures
        second_pass(s, x, x, j, processed(s, x, stop)) == Ok::<Seq<MergedTree>, MergeFault>(
            between(s.f, x, if j >= stop {
                j
            } else {
                stop
            }, s.f[x as int].children.len()),
        ),
    decreases x, 2nat, s.f[x as int].children.len() - j,
{
    let f = s.f;
    let n = f[x as int].children.len();
    let done = processed(s, x, stop);
    if j < n {
        let c = f[x as int].children[j as int];
        lemma_child_unchanged(s, x, j as int);
        lemma_second_pass_with_itself(s, x, j + 1, stop);
        lemma_processed_with_itself(s, x, stop, c);
        if j < stop {
            assert(0 <= j < stop && f[x as int].children[j as int] == c);
            assert(done.contains(c));
        } else {
            if done.contains(c) {
                let k = choose|k: int| 0 <= k < stop && f[x as int].children[k] == c;
                lemma_children_differ(f, x, k, j as int);
            }
            lemma_merge_with_itself(s, c);
            assert(second_emitted(s, x, c) == Ok::<Seq<MergedTree>, MergeFault>(
                seq![merged_from(f, c as int)],
            ));
        }
    }
}

/// The first pass stops at one of the children or behind the last.
proof fn lemma_first_stop_bound(f: Seq<NodeView>, x: usize, i: nat)
    requires
        i <= f[x as int].children.len(),
    ensures
        i <= first_stop(f, x, i) <= f[x as int].children.len(),
    decreases f[x as int].children.len() - i,
{
    if i < f[x as int].children.len() && !closes_block(f, x, f[x as int].children[i as int]) {
        lemma_first_stop_bound(f, x, i + 1);
    }
}

/// An unordered merge of a node with itself, where nothing changed, gives
/// the node over its children as they are.
proof fn lemma_unordered_with_itself(s: Scenario, x: usize)
    requires
        wf(s.f),
        x < s.f.len(),
        !s.f[x as int].is_terminal,
        unchanged(s, x),
    ensures
        unordered_merge_of(s, x, x) == non_terminal_over(
            s.f,
            x,
            Ok(between(s.f, x, 0, s.f[x as int].children.len())),
        ),
    decreases x, 2nat, s.f[x as int].children.len() + 1,
{
    let f = s.f;
    let n = f[x as int].children.len();
    let stop = first_stop(f, x, 0);
    lemma_first_stop_bound(f, x, 0);
    lemma_first_pass_with_itself(s, x, 0, stop);
    lemma_second_pass_with_itself(s, x, 0, stop);
    lemma_between_joins(f, x, 0, stop, n);
}

/// A tree that is merged with itself, over matchings that pair every node
/// with itself, renders the text it stood for in its source.
pub proof fn lemma_merge_with_itself_renders_source(s: Scenario, x: usize)
    requires
        wf(s.f),
        x < s.f.len(),
        unchanged(s, x),
    ensures
        merge_of(s, x, x, x) matches Ok(tree) && rendered(tree) == source_text(s.f, x as int),
{
    lemma_merge_with_itself(s, x);
    lemma_unchanged_renders_source(s.f, x as int);
}

/// The scenario in which the subtree at `x` stands for base, for left and
/// for right, with the matchings that the matcher finds between the subtree
/// and itself.
pub open spec fn merged_with_itself(f: Seq<NodeView>, x: usize) -> Scenario {
    Scenario {
        f,
        base_left: matchings_of(f, x, x),
        base_right: matchings_of(f, x, x),
        left_right: matchings_of(f, x, x),
    }
}

/// A merge in which nothing changed changes nothing. Where a plain tree
/// stands for base, for left and for right, the matcher pairs every node with
/// itself, and the merge gives the tree as it is: the merged tree holds no
/// conflict and renders the text that the tree stood for in its source.
pub proof fn lemma_no_op_merge(f: Seq<NodeView>, x: usize)
    requires
        wf(f),
        x < f.len(),
        plain(f, x),
    ensures
        merge_of(merged_with_itself(f, x), x, x, x) == Ok::<MergedTree, MergeFault>(
            merged_from(f, x as int),
        ),
        rendered(merged_from(f, x as int)) == source_text(f, x as int),
        !conflicted(merged_from(f, x as int)),
{
    lemma_matching_with_itself(f, x);
    lemma_merge_with_itself(merged_with_itself(f, x), x);
    lemma_unchanged_renders_source(f, x as int);
}

} // verus!

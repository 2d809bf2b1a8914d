use vstd::prelude::*;
use crate::forest::NodeView;
use crate::matching::matchings::MatchedPair;
use crate::matching::{
    backtrack, child_matchings, child_score, direction, lcs, lemma_backtrack_step, lemma_lcs_step,
    Direction,
};

verus! {

/// An alignment of the first `i` children of one node with the first `j`
/// children of another: pairs of a child of the one and a child of the other
/// that keep the order of the children on both sides.
pub open spec fn is_alignment(a: Seq<(int, int)>, i: nat, j: nat) -> bool {
    &&& forall|k: int| 0 <= k < a.len() ==> 0 <= (#[trigger] a[k]).0 < i && 0 <= a[k].1 < j
    &&& forall|k: int, m: int|
        0 <= k < m < a.len() ==> (#[trigger] a[k]).0 < (#[trigger] a[m]).0 && a[k].1 < a[m].1
}

/// The sum of the scores of the pairs of an alignment of children of `l`
/// with children of `r`.
pub open spec fn alignment_score(f: Seq<NodeView>, l: usize, r: usize, a: Seq<(int, int)>) -> nat
    decreases a.len(),
{
    if a.len() == 0 {
        0
    } else {
        alignment_score(f, l, r, a.drop_last()) + child_score(f, l, r, a.last().0, a.last().1)
    }
}

/// The pairs of children that the way back from the cell `(i, j)` of the
/// alignment table pairs, in the order of the children.
pub open spec fn chosen(f: Seq<NodeView>, l: usize, r: usize, i: nat, j: nat) -> Seq<(int, int)>
    decreases i + j,
{
    if i == 0 || j == 0 {
        Seq::empty()
    } else {
        match direction(f, l, r, i, j) {
            Direction::Top => chosen(f, l, r, (i - 1) as nat, j),
            Direction::Left => chosen(f, l, r, i, (j - 1) as nat),
            Direction::Diag => chosen(f, l, r, (i - 1) as nat, (j - 1) as nat).push(
                (i - 1, j - 1),
            ),
        }
    }
}

/// The matchings of the pairs of an alignment, the last pair first.
pub open spec fn matchings_along(f: Seq<NodeView>, l: usize, r: usize, a: Seq<(int, int)>) -> Seq<
    MatchedPair,
>
    decreases a.len(),
{
    if a.len() == 0 {
        Seq::empty()
    } else {
        child_matchings(f, l, r, a.last().0, a.last().1) + matchings_along(
            f,
            l,
            r,
            a.drop_last(),
        )
    }
}

/// An alignment of fewer children is an alignment of more children.
proof fn lemma_alignment_wider(a: Seq<(int, int)>, i: nat, j: nat, wider_i: nat, wider_j: nat)
    requires
        is_alignment(a, i, j),
        i <= wider_i,
        j <= wider_j,
    ensures
        is_alignment(a, wider_i, wider_j),
{
}

/// No alignment scores more than the alignment table holds: the value of
/// the cell `(i, j)` is at least the sum of the scores of every alignment of
/// the first `i` children of `l` with the first `j` children of `r`.
pub proof fn lemma_no_alignment_scores_more(
    f: Seq<NodeView>,
    l: usize,
    r: usize,
    i: nat,
    j: nat,
    a: Seq<(int, int)>,
)
    requires
        is_alignment(a, i, j),
    ensures
        alignment_score(f, l, r, a) <= lcs(f, l, r, i, j),
    decreases i + j,
{
    if a.len() > 0 {
        let last = a.last();
        let before = a.drop_last();
        assert(last == a[a.len() - 1]);
        assert(i > 0 && j > 0);
        lemma_lcs_step(f, l, r, i, j);
        if last.0 == i - 1 && last.1 == j - 1 {
            assert(is_alignment(before, (i - 1) as nat, (j - 1) as nat)) by {
                assert forall|k: int| 0 <= k < before.len() implies 0 <= (#[trigger] before[k]).0
                    < i - 1 && 0 <= before[k].1 < j - 1 by {
                    assert(before[k] == a[k]);
                }
                assert forall|k: int, m: int| 0 <= k < m < before.len() implies (
                #[trigger] before[k]).0 < (#[trigger] before[m]).0 && before[k].1
                    < before[m].1 by {
                    assert(before[k] == a[k]);
                    assert(before[m] == a[m]);
                }
            }
            lemma_no_alignment_scores_more(f, l, r, (i - 1) as nat, (j - 1) as nat, before);
        } else if last.0 < i - 1 {
            assert(is_alignment(a, (i - 1) as nat, j)) by {
                assert forall|k: int| 0 <= k < a.len() implies 0 <= (#[trigger] a[k]).0 < i - 1
                    && 0 <= a[k].1 < j by {
                    if k < a.len() - 1 {
                        assert(a[k].0 < a[a.len() - 1].0);
                    }
                }
            }
            lemma_no_alignment_scores_more(f, l, r, (i - 1) as nat, j, a);
        } else {
            assert(is_alignment(a, i, (j - 1) as nat)) by {
                assert forall|k: int| 0 <= k < a.len() implies 0 <= (#[trigger] a[k]).0 < i && 0
                    <= a[k].1 < j - 1 by {
                    if k < a.len() - 1 {
                        assert(a[k].1 < a[a.len() - 1].1);
                    }
                }
            }
            lemma_no_alignment_scores_more(f, l, r, i, (j - 1) as nat, a);
        }
    }
}

/// The pairs that the matcher chooses are an alignment, and they score what
/// the alignment table holds: no alignment scores more than the one chosen.
pub proof fn lemma_chosen_alignment_is_best(f: Seq<NodeView>, l: usize, r: usize, i: nat, j: nat)
    ensures
        is_alignment(chosen(f, l, r, i, j), i, j),
        alignment_score(f, l, r, chosen(f, l, r, i, j)) == lcs(f, l, r, i, j),
        backtrack(f, l, r, i, j) == matchings_along(f, l, r, chosen(f, l, r, i, j)),
    decreases i + j,
{
    if i > 0 && j > 0 {
        lemma_lcs_step(f, l, r, i, j);
        lemma_backtrack_step(f, l, r, i, j);
        match direction(f, l, r, i, j) {
            Direction::Top => {
                lemma_chosen_alignment_is_best(f, l, r, (i - 1) as nat, j);
                lemma_alignment_wider(chosen(f, l, r, (i - 1) as nat, j), (i - 1) as nat, j, i, j);
            },
            Direction::Left => {
                lemma_chosen_alignment_is_best(f, l, r, i, (j - 1) as nat);
                lemma_alignment_wider(chosen(f, l, r, i, (j - 1) as nat), i, (j - 1) as nat, i, j);
            },
            Direction::Diag => {
                lemma_chosen_alignment_is_best(f, l, r, (i - 1) as nat, (j - 1) as nat);
                let before = chosen(f, l, r, (i - 1) as nat, (j - 1) as nat);
                let all = before.push((i - 1, j - 1));
                assert(all.drop_last() =~= before);
                assert(all.last() == (i - 1, j - 1));
                assert(is_alignment(all, i, j)) by {
                    assert forall|k: int| 0 <= k < all.len() implies 0 <= (#[trigger] all[k]).0 < i
                        && 0 <= all[k].1 < j by {
                        if k < before.len() {
                            assert(all[k] == before[k]);
                        }
                    }
                    assert forall|k: int, m: int| 0 <= k < m < all.len() implies (
                    #[trigger] all[k]).0 < (#[trigger] all[m]).0 && all[k].1 < all[m].1 by {
                        assert(all[k] == before[k]);
                        if m < before.len() {
                            assert(all[m] == before[m]);
                        }
                    }
                }
            },
        }
    } else {
        assert(backtrack(f, l, r, i, j) =~= Seq::<MatchedPair>::empty());
    }
}

/// Only pairs that raise the score are chosen: each pair of the chosen
/// alignment scores at least 1.
pub proof fn lemma_chosen_pairs_score(f: Seq<NodeView>, l: usize, r: usize, i: nat, j: nat, k: int)
    requires
        0 <= k < chosen(f, l, r, i, j).len(),
    ensures
        child_score(f, l, r, chosen(f, l, r, i, j)[k].0, chosen(f, l, r, i, j)[k].1) >= 1,
    decreases i + j,
{
    if i > 0 && j > 0 {
        lemma_lcs_step(f, l, r, i, j);
        match direction(f, l, r, i, j) {
            Direction::Top => {
                lemma_chosen_pairs_score(f, l, r, (i - 1) as nat, j, k);
            },
            Direction::Left => {
                lemma_chosen_pairs_score(f, l, r, i, (j - 1) as nat, k);
            },
            Direction::Diag => {
                let before = chosen(f, l, r, (i - 1) as nat, (j - 1) as nat);
                if k < before.len() {
                    lemma_chosen_pairs_score(f, l, r, (i - 1) as nat, (j - 1) as nat, k);
                } else {
                    lemma_lcs_grows(f, l, r, i, (j - 1) as nat);
                }
            },
        }
    }
}

/// A cell of the alignment table holds at least what the cell above it and
/// the cell to its left hold.
proof fn lemma_lcs_grows(f: Seq<NodeView>, l: usize, r: usize, i: nat, j: nat)
    requires
        i >= 1,
    ensures
        lcs(f, l, r, (i - 1) as nat, j) <= lcs(f, l, r, i, j),
{
    if j >= 1 {
        lemma_lcs_step(f, l, r, i, j);
    }
}

} // verus!

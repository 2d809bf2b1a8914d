use vstd::prelude::*;
use crate::forest::{lemma_child_before, wf, NodeView};
use crate::matching::matches::node_matches;
use crate::matching::matching_entry::Matching;
use crate::matching::matchings::{lemma_matching_for_extended, matching_for, MatchedPair};
use crate::matching::ordered::{lemma_prefix_span, lemma_span, prefix_span};
use crate::matching::{
    all_labeled, bonus, child_matchings, child_score, label_row, label_row_sum, label_rows,
    label_rows_sum, lcs, lemma_child_matchings, lemma_label_row_step, lemma_label_rows_step,
    lemma_lcs_step, matchings_of, paired_by_label, root_pair, same_label, score_in, span,
};

verus! {

/// The node `y` lies in the subtree at `x`.
pub open spec fn inside(f: Seq<NodeView>, x: usize, y: usize) -> bool {
    f[x as int].first <= y <= x
}

/// No two children of `p` carry the same label.
pub open spec fn distinct_labels(f: Seq<NodeView>, p: int) -> bool {
    forall|i: int, j: int|
        #![trigger f[p].children[i], f[p].children[j]]
        0 <= i < f[p].children.len() && 0 <= j < f[p].children.len() && i != j ==> !same_label(
            f[f[p].children[i] as int],
            f[f[p].children[j] as int],
        )
}

/// Where the children of `y` may stand in any order, each of them carries a
/// label, and no two of them the same.
pub open spec fn plain_node(f: Seq<NodeView>, y: int) -> bool {
    !f[y].is_terminal && f[y].are_children_unordered ==> all_labeled(f, y) && distinct_labels(
        f,
        y,
    )
}

/// Every node of the subtree at `x` whose children may stand in any order
/// has children with labels that tell them apart.
pub open spec fn plain(f: Seq<NodeView>, x: usize) -> bool {
    forall|y: usize| inside(f, x, y) ==> #[trigger] plain_node(f, y as int)
}

/// A node of the subtree at `x` other than `x` lies in the subtree of one of
/// the children of `x`, which the lemma hands back.
pub proof fn lemma_locate(f: Seq<NodeView>, x: usize, y: usize, k: int) -> (found: int)
    requires
        wf(f),
        x < f.len(),
        0 <= k < f[x as int].children.len(),
        f[x as int].first <= y <= f[x as int].children[k],
    ensures
        0 <= found <= k,
        inside(f, f[x as int].children[found], y),
    decreases k,
{
    lemma_child_before(f, x as int, k);
    if y >= f[f[x as int].children[k] as int].first {
        k
    } else {
        lemma_locate(f, x, y, k - 1)
    }
}

/// The subtree of a node of a subtree lies in the subtree.
pub proof fn lemma_nested(f: Seq<NodeView>, x: usize, y: usize)
    requires
        wf(f),
        x < f.len(),
        inside(f, x, y),
    ensures
        f[x as int].first <= f[y as int].first,
        y < f.len(),
    decreases x,
{
    if y != x {
        let n = f[x as int].children.len();
        assert(n > 0) by {
            reveal(wf);
            assert(crate::forest::node_wf(f, x as int));
        }
        lemma_child_before(f, x as int, n - 1);
        let k = lemma_locate(f, x, y, n - 1);
        lemma_child_before(f, x as int, k);
        lemma_nested(f, f[x as int].children[k], y);
    }
}

/// A child of a node of a subtree lies in the subtree.
proof fn lemma_child_inside(f: Seq<NodeView>, root: usize, p: usize, k: int)
    requires
        wf(f),
        root < f.len(),
        inside(f, root, p),
        0 <= k < f[p as int].children.len(),
    ensures
        inside(f, root, f[p as int].children[k]),
        inside(f, p, f[p as int].children[k]),
        f[p as int].children[k] < p,
{
    lemma_nested(f, root, p);
    lemma_child_before(f, p as int, k);
}

/// The score that the root pair records is the score found for the roots.
proof fn lemma_root_score(s: Seq<MatchedPair>, f: Seq<NodeView>, l: usize, r: usize, score: nat)
    requires
        score <= u64::MAX,
    ensures
        score_in(s + seq![root_pair(f, l, r, score)], l, r) == score,
{
    let t = s + seq![root_pair(f, l, r, score)];
    assert(t.last() == root_pair(f, l, r, score));
}

/// The score of two nodes of a plain subtree is at most the size of each of
/// the two subtrees.
pub proof fn lemma_score_bound(f: Seq<NodeView>, root: usize, l: usize, r: usize)
    requires
        wf(f),
        root < f.len(),
        plain(f, root),
        inside(f, root, l),
        inside(f, root, r),
    ensures
        score_in(matchings_of(f, l, r), l, r) <= span(f, l as int),
        score_in(matchings_of(f, l, r), l, r) <= span(f, r as int),
    decreases l, 3nat, 0nat,
{
    lemma_span(f, l as int);
    lemma_span(f, r as int);
    let m = f[l as int].children.len();
    let n = f[r as int].children.len();
    if !node_matches(f[l as int], f[r as int]) {
    } else if f[l as int].is_terminal {
        assert(matchings_of(f, l, r).last().left == l);
    } else {
        if m > 0 {
            lemma_prefix_span(f, l as int, m - 1);
        }
        if n > 0 {
            lemma_prefix_span(f, r as int, n - 1);
        }
        if f[l as int].are_children_unordered && f[r as int].are_children_unordered {
            assert(plain_node(f, l as int));
            assert(plain_node(f, r as int));
            lemma_label_rows_bound(f, root, l, r, m);
            lemma_label_columns_bound(f, root, l, r, m);
            lemma_used_bound(f, l, r, m, n);
            let sum = label_rows_sum(f, l, r, m);
            lemma_root_score(label_rows(f, l, r, m), f, l, r, sum + 1);
        } else {
            lemma_lcs_bound(f, root, l, r, m, n);
            let total = lcs(f, l, r, m, n) + bonus(f[l as int].kind == f[r as int].kind);
            lemma_root_score(crate::matching::backtrack(f, l, r, m, n), f, l, r, total);
        }
    }
}

/// The score of two children of nodes of a plain subtree is at most the
/// size of each of the two children.
proof fn lemma_child_score_bound(
    f: Seq<NodeView>,
    root: usize,
    l: usize,
    r: usize,
    i: int,
    j: int,
)
    requires
        wf(f),
        root < f.len(),
        plain(f, root),
        inside(f, root, l),
        inside(f, root, r),
        0 <= i < f[l as int].children.len(),
        0 <= j < f[r as int].children.len(),
    ensures
        child_score(f, l, r, i, j) <= span(f, f[l as int].children[i] as int),
        child_score(f, l, r, i, j) <= span(f, f[r as int].children[j] as int),
    decreases l, 1nat, 0nat,
{
    lemma_child_inside(f, root, l, i);
    lemma_child_inside(f, root, r, j);
    lemma_child_matchings(f, l, r, i, j);
    lemma_score_bound(f, root, f[l as int].children[i], f[r as int].children[j]);
}

/// The value of a cell of the alignment table is at most the size of what
/// lies below the children that it covers, on each side.
proof fn lemma_lcs_bound(f: Seq<NodeView>, root: usize, l: usize, r: usize, i: nat, j: nat)
    requires
        wf(f),
        root < f.len(),
        plain(f, root),
        inside(f, root, l),
        inside(f, root, r),
        i <= f[l as int].children.len(),
        j <= f[r as int].children.len(),
    ensures
        lcs(f, l, r, i, j) <= prefix_span(f, l as int, i as int),
        lcs(f, l, r, i, j) <= prefix_span(f, r as int, j as int),
    decreases l, 2nat, i + j,
{
    if i > 0 && j > 0 {
        lemma_lcs_bound(f, root, l, r, (i - 1) as nat, j);
        lemma_lcs_bound(f, root, l, r, i, (j - 1) as nat);
        lemma_lcs_bound(f, root, l, r, (i - 1) as nat, (j - 1) as nat);
        lemma_child_score_bound(f, root, l, r, i - 1, j - 1);
        lemma_lcs_step(f, l, r, i, j);
        lemma_prefix_span(f, l as int, i - 1);
        lemma_prefix_span(f, r as int, j - 1);
    }
}

/// Two nodes that carry the label of a third carry the same label.
proof fn lemma_same_label_shared(a: NodeView, b: NodeView, c: NodeView)
    requires
        same_label(a, b),
        same_label(a, c),
    ensures
        same_label(b, c),
        same_label(b, a),
{
}

/// Where the children of `r` carry different labels, a child of `l` is
/// paired with at most one of them: the row of the child holds the matchings
/// and the score of that one, and nothing where there is none.
proof fn lemma_label_row(f: Seq<NodeView>, l: usize, r: usize, i: int, upto: nat)
    requires
        distinct_labels(f, r as int),
        upto <= f[r as int].children.len(),
    ensures
        (forall|j: int| 0 <= j < upto ==> !#[trigger] paired_by_label(f, l, r, i, j)) ==> label_row_sum(
            f,
            l,
            r,
            i,
            upto,
        ) == 0 && label_row(f, l, r, i, upto) == Seq::<MatchedPair>::empty(),
        forall|j: int|
            0 <= j < upto && #[trigger] paired_by_label(f, l, r, i, j) ==> label_row_sum(f, l, r, i, upto)
                == child_score(f, l, r, i, j) && label_row(f, l, r, i, upto) == child_matchings(
                f,
                l,
                r,
                i,
                j,
            ),
    decreases upto,
{
    if upto > 0 {
        lemma_label_row(f, l, r, i, (upto - 1) as nat);
        lemma_label_row_step(f, l, r, i, upto);
        let last = upto - 1;
        let ci = f[f[l as int].children[i] as int];
        if paired_by_label(f, l, r, i, last) {
            assert forall|j: int| 0 <= j < last implies !#[trigger] paired_by_label(f, l, r, i, j) by {
                if paired_by_label(f, l, r, i, j) {
                    lemma_same_label_shared(
                        ci,
                        f[f[r as int].children[j] as int],
                        f[f[r as int].children[last] as int],
                    );
                    assert(f[r as int].children[j] == f[r as int].children[j]);
                    assert(f[r as int].children[last] == f[r as int].children[last]);
                }
            }
            assert(Seq::<MatchedPair>::empty() + child_matchings(f, l, r, i, last)
                =~= child_matchings(f, l, r, i, last));
        } else {
            assert forall|j: int|
                0 <= j < upto && #[trigger] paired_by_label(f, l, r, i, j) implies label_row_sum(
                f,
                l,
                r,
                i,
                upto,
            ) == child_score(f, l, r, i, j) && label_row(f, l, r, i, upto) == child_matchings(
                f,
                l,
                r,
                i,
                j,
            ) by {
                assert(label_row(f, l, r, i, last as nat) + Seq::<MatchedPair>::empty()
                    =~= label_row(f, l, r, i, last as nat));
            }
            if forall|j: int| 0 <= j < upto ==> !#[trigger] paired_by_label(f, l, r, i, j) {
                assert(Seq::<MatchedPair>::empty() + Seq::<MatchedPair>::empty()
                    =~= Seq::<MatchedPair>::empty());
            }
        }
    }
}

/// The sum of the scores of the pairs of a child of `l` is at most the size
/// of the child.
proof fn lemma_label_row_bound(f: Seq<NodeView>, root: usize, l: usize, r: usize, i: int)
    requires
        wf(f),
        root < f.len(),
        plain(f, root),
        inside(f, root, l),
        inside(f, root, r),
        distinct_labels(f, r as int),
        0 <= i < f[l as int].children.len(),
    ensures
        label_row_sum(f, l, r, i, f[r as int].children.len()) <= span(
            f,
            f[l as int].children[i] as int,
        ),
    decreases l, 1nat, 1nat,
{
    let n = f[r as int].children.len();
    lemma_label_row(f, l, r, i, n);
    if exists|j: int| 0 <= j < n && #[trigger] paired_by_label(f, l, r, i, j) {
        let j = choose|j: int| 0 <= j < n && #[trigger] paired_by_label(f, l, r, i, j);
        lemma_child_score_bound(f, root, l, r, i, j);
    }
}

/// The sum of the scores of the pairs by label of the first children of `l`
/// is at most the size of what lies below these children.
proof fn lemma_label_rows_bound(f: Seq<NodeView>, root: usize, l: usize, r: usize, upto: nat)
    requires
        wf(f),
        root < f.len(),
        plain(f, root),
        inside(f, root, l),
        inside(f, root, r),
        distinct_labels(f, r as int),
        upto <= f[l as int].children.len(),
    ensures
        label_rows_sum(f, l, r, upto) <= prefix_span(f, l as int, upto as int),
    decreases l, 2nat, upto,
{
    if upto > 0 {
        lemma_label_rows_bound(f, root, l, r, (upto - 1) as nat);
        lemma_label_row_bound(f, root, l, r, upto - 1);
        lemma_label_rows_step(f, l, r, upto);
        lemma_prefix_span(f, l as int, upto - 1);
    }
}

/// The size of the children of `r`, among the first `upto`, that are paired
/// by label with one of the first `rows` children of `l`.
pub open spec fn used(f: Seq<NodeView>, l: usize, r: usize, rows: nat, upto: nat) -> nat
    decreases upto,
{
    if upto == 0 {
        0
    } else {
        used(f, l, r, rows, (upto - 1) as nat) + (if exists|k: int|
            0 <= k < rows && #[trigger] paired_by_label(f, l, r, k, upto - 1) {
            span(f, f[r as int].children[upto - 1] as int)
        } else {
            0
        })
    }
}

/// The children of `r` that are paired are not larger than all of them.
proof fn lemma_used_bound(f: Seq<NodeView>, l: usize, r: usize, rows: nat, upto: nat)
    requires
        wf(f),
        r < f.len(),
        upto <= f[r as int].children.len(),
    ensures
        used(f, l, r, rows, upto) <= prefix_span(f, r as int, upto as int),
    decreases upto,
{
    if upto > 0 {
        lemma_used_bound(f, l, r, rows, (upto - 1) as nat);
        lemma_prefix_span(f, r as int, upto - 1);
    }
}

/// One more child of `l` adds to the paired children of `r` the one that it
/// is paired with, if it is paired with one.
proof fn lemma_used_grows(f: Seq<NodeView>, l: usize, r: usize, rows: nat, upto: nat, j0: int)
    requires
        distinct_labels(f, l as int),
        distinct_labels(f, r as int),
        rows < f[l as int].children.len(),
        upto <= f[r as int].children.len(),
        0 <= j0 < f[r as int].children.len() ==> paired_by_label(f, l, r, rows as int, j0),
        !(0 <= j0 < f[r as int].children.len()) ==> forall|j: int|
            0 <= j < f[r as int].children.len() ==> !#[trigger] paired_by_label(f, l, r, rows as int, j),
    ensures
        used(f, l, r, rows + 1, upto) == used(f, l, r, rows, upto) + (if 0 <= j0 < upto {
            span(f, f[r as int].children[j0] as int)
        } else {
            0
        }),
    decreases upto,
{
    if upto > 0 {
        lemma_used_grows(f, l, r, rows, (upto - 1) as nat, j0);
        let last = upto - 1;
        let before = exists|k: int| 0 <= k < rows && #[trigger] paired_by_label(f, l, r, k, last);
        let after = exists|k: int| 0 <= k < rows + 1 && #[trigger] paired_by_label(f, l, r, k, last);
        if last == j0 {
            assert(paired_by_label(f, l, r, rows as int, last));
            assert(after);
            if before {
                let k = choose|k: int| 0 <= k < rows && #[trigger] paired_by_label(f, l, r, k, last);
                lemma_same_label_shared(
                    f[f[r as int].children[last] as int],
                    f[f[l as int].children[k] as int],
                    f[f[l as int].children[rows as int] as int],
                );
                lemma_paired_is_same_label(f, l, r, k, last);
                lemma_paired_is_same_label(f, l, r, rows as int, last);
                assert(f[l as int].children[k] == f[l as int].children[k]);
                assert(f[l as int].children[rows as int] == f[l as int].children[rows as int]);
                assert(false);
            }
        } else {
            if paired_by_label(f, l, r, rows as int, last) {
                lemma_paired_is_same_label(f, l, r, rows as int, last);
                lemma_paired_is_same_label(f, l, r, rows as int, j0);
                lemma_same_label_shared(
                    f[f[l as int].children[rows as int] as int],
                    f[f[r as int].children[last] as int],
                    f[f[r as int].children[j0] as int],
                );
                assert(f[r as int].children[last] == f[r as int].children[last]);
                assert(f[r as int].children[j0] == f[r as int].children[j0]);
                assert(false);
            }
            if after {
                let k = choose|k: int| 0 <= k < rows + 1 && #[trigger] paired_by_label(f, l, r, k, last);
                assert(0 <= k < rows && paired_by_label(f, l, r, k, last));
            }
            if before {
                let k = choose|k: int| 0 <= k < rows && #[trigger] paired_by_label(f, l, r, k, last);
                assert(0 <= k < rows + 1 && paired_by_label(f, l, r, k, last));
            }
        }
    }
}

/// Children that are paired by label carry the same label, in both
/// directions.
proof fn lemma_paired_is_same_label(f: Seq<NodeView>, l: usize, r: usize, i: int, j: int)
    requires
        paired_by_label(f, l, r, i, j),
    ensures
        same_label(f[f[l as int].children[i] as int], f[f[r as int].children[j] as int]),
        same_label(f[f[r as int].children[j] as int], f[f[l as int].children[i] as int]),
{
}

/// The sum of the scores of the pairs by label of the first children of `l`
/// is at most the size of the children of `r` that they are paired with.
proof fn lemma_label_columns_bound(f: Seq<NodeView>, root: usize, l: usize, r: usize, upto: nat)
    requires
        wf(f),
        root < f.len(),
        plain(f, root),
        inside(f, root, l),
        inside(f, root, r),
        distinct_labels(f, l as int),
        distinct_labels(f, r as int),
        upto <= f[l as int].children.len(),
    ensures
        label_rows_sum(f, l, r, upto) <= used(f, l, r, upto, f[r as int].children.len()),
    decreases l, 2nat, upto,
{
    if upto > 0 {
        let n = f[r as int].children.len();
        let i = upto - 1;
        lemma_label_columns_bound(f, root, l, r, i as nat);
        lemma_label_rows_step(f, l, r, upto);
        lemma_label_row(f, l, r, i, n);
        if exists|j: int| 0 <= j < n && #[trigger] paired_by_label(f, l, r, i, j) {
            let j0 = choose|j: int| 0 <= j < n && #[trigger] paired_by_label(f, l, r, i, j);
            lemma_child_score_bound(f, root, l, r, i, j0);
            lemma_used_grows(f, l, r, i as nat, n, j0);
        } else {
            lemma_used_grows(f, l, r, i as nat, n, -1);
        }
    }
}

/// The matchings `m` pair every node of the subtree at `x` with itself.
pub open spec fn pairs_with_itself(m: Seq<MatchedPair>, f: Seq<NodeView>, x: usize) -> bool {
    forall|y: usize|
        f[x as int].first <= y <= x ==> (#[trigger] matching_for(m, y)).is_some() && matching_for(
            m,
            y,
        ).unwrap().matching_node == y
}

/// Every pair of `s` joins two nodes of the arena from index `low` up to,
/// but without, index `high`.
pub open spec fn contained(s: Seq<MatchedPair>, low: int, high: int) -> bool {
    forall|k: int|
        0 <= k < s.len() ==> low <= (#[trigger] s[k]).left < high && low <= s[k].right < high
}

/// What a node that is matched with itself finds as its partner: itself, as
/// a perfect match, with the size of its subtree as the score.
pub open spec fn own_match(f: Seq<NodeView>, y: usize) -> Matching {
    Matching { matching_node: y, score: span(f, y as int) as u64, is_perfect_match: true }
}

/// The matchings `s` pair every node from index `low` up to, but without,
/// index `high` with itself, as a perfect match that scores the size of the
/// node's subtree.
pub open spec fn identity_on(s: Seq<MatchedPair>, f: Seq<NodeView>, low: int, high: int) -> bool {
    forall|y: usize| low <= y < high ==> #[trigger] matching_for(s, y) == Some(own_match(f, y))
}

/// A node that no pair holds has no partner.
proof fn lemma_untouched(s: Seq<MatchedPair>, low: int, high: int, y: usize)
    requires
        contained(s, low, high),
        !(low <= y < high),
    ensures
        matching_for(s, y).is_none(),
    decreases s.len(),
{
    if s.len() > 0 {
        assert(s.last() == s[s.len() - 1]);
        assert forall|k: int| 0 <= k < s.drop_last().len() implies low <= (
        #[trigger] s.drop_last()[k]).left < high && low <= s.drop_last()[k].right < high by {
            assert(s.drop_last()[k] == s[k]);
        }
        lemma_untouched(s.drop_last(), low, high, y);
    }
}

/// What holds of two sets of pairs holds of the two joined.
proof fn lemma_contained_joined(s: Seq<MatchedPair>, t: Seq<MatchedPair>, low: int, high: int)
    requires
        contained(s, low, high),
        contained(t, low, high),
    ensures
        contained(s + t, low, high),
{
    assert forall|k: int| 0 <= k < (s + t).len() implies low <= (#[trigger] (s + t)[k]).left
        < high && low <= (s + t)[k].right < high by {
        if k < s.len() {
            assert((s + t)[k] == s[k]);
        } else {
            assert((s + t)[k] == t[k - s.len()]);
        }
    }
}

/// Pairs within a range lie within every wider range.
proof fn lemma_contained_wider(s: Seq<MatchedPair>, low: int, high: int, lower: int, higher: int)
    requires
        contained(s, low, high),
        lower <= low,
        high <= higher,
    ensures
        contained(s, lower, higher),
{
}

/// The matchings of the first `i` children of `x` with themselves, the last
/// child first.
pub open spec fn diagonal(f: Seq<NodeView>, x: usize, i: nat) -> Seq<MatchedPair>
    decreases i,
{
    if i == 0 {
        Seq::empty()
    } else {
        child_matchings(f, x, x, i - 1, i - 1) + diagonal(f, x, (i - 1) as nat)
    }
}

/// The index behind the subtrees of the first `i` children of `x`.
pub open spec fn behind(f: Seq<NodeView>, x: usize, i: nat) -> int {
    f[x as int].first + prefix_span(f, x as int, i as int)
}

/// What is shown of a node that is matched with itself: its score is the
/// size of its subtree, every pair lies in the subtree, and every node of
/// the subtree is its own partner.
pub open spec fn matched_with_itself(f: Seq<NodeView>, x: usize) -> bool {
    &&& score_in(matchings_of(f, x, x), x, x) == span(f, x as int)
    &&& contained(matchings_of(f, x, x), f[x as int].first as int, x + 1)
    &&& identity_on(matchings_of(f, x, x), f, f[x as int].first as int, x + 1)
}

/// The matchings of a plain subtree with itself pair every node with itself,
/// and the score of each node with itself is the size of its subtree.
pub proof fn lemma_matched_with_itself(f: Seq<NodeView>, root: usize, x: usize)
    requires
        wf(f),
        root < f.len(),
        plain(f, root),
        inside(f, root, x),
    ensures
        matched_with_itself(f, x),
    decreases x, 3nat, 0nat,
{
    lemma_nested(f, root, x);
    lemma_span(f, x as int);
    let n = f[x as int].children.len();
    let low = f[x as int].first as int;
    let own = root_pair(f, x, x, span(f, x as int));
    reveal(wf);
    assert(crate::forest::node_wf(f, x as int));
    if n > 0 {
        lemma_child_before(f, x as int, n - 1);
    }
    assert(behind(f, x, n) == x);
    let below: Seq<MatchedPair> = if f[x as int].is_terminal {
        Seq::empty()
    } else if f[x as int].are_children_unordered {
        assert(plain_node(f, x as int));
        lemma_rows_with_itself(f, root, x, n);
        label_rows(f, x, x, n)
    } else {
        lemma_diagonal(f, root, x, n);
        crate::matching::backtrack(f, x, x, n, n)
    };
    let m = matchings_of(f, x, x);
    assert(m =~= below + seq![own]) by {
        if f[x as int].is_terminal {
            assert(m =~= Seq::<MatchedPair>::empty() + seq![own]);
        }
    }
    assert(m.last() == own);
    assert(m.drop_last() =~= below);
    assert(contained(seq![own], low, x + 1));
    lemma_contained_wider(below, low, x as int, low, x + 1);
    lemma_contained_joined(below, seq![own], low, x + 1);
    assert forall|y: usize| low <= y < x + 1 implies #[trigger] matching_for(m, y) == Some(
        own_match(f, y),
    ) by {
        if y != x {
            assert(matching_for(m, y) == matching_for(below, y));
        }
    }
}

/// Along the diagonal of the alignment table of a node with itself, every
/// child is paired with itself.
proof fn lemma_diagonal(f: Seq<NodeView>, root: usize, x: usize, i: nat)
    requires
        wf(f),
        root < f.len(),
        plain(f, root),
        inside(f, root, x),
        !f[x as int].is_terminal,
        i <= f[x as int].children.len(),
    ensures
        lcs(f, x, x, i, i) == prefix_span(f, x as int, i as int),
        crate::matching::backtrack(f, x, x, i, i) == diagonal(f, x, i),
        contained(diagonal(f, x, i), f[x as int].first as int, behind(f, x, i)),
        identity_on(diagonal(f, x, i), f, f[x as int].first as int, behind(f, x, i)),
    decreases x, 2nat, i,
{
    let low = f[x as int].first as int;
    if i > 0 {
        let c = f[x as int].children[i - 1];
        let w = child_matchings(f, x, x, i - 1, i - 1);
        let rest = diagonal(f, x, (i - 1) as nat);
        lemma_diagonal(f, root, x, (i - 1) as nat);
        lemma_child_inside(f, root, x, i - 1);
        lemma_child_matchings(f, x, x, i - 1, i - 1);
        lemma_matched_with_itself(f, root, c);
        lemma_lcs_bound(f, root, x, x, i, (i - 1) as nat);
        lemma_lcs_bound(f, root, x, x, (i - 1) as nat, i);
        lemma_lcs_step(f, x, x, i, i);
        crate::matching::lemma_backtrack_step(f, x, x, i, i);
        lemma_child_before(f, x as int, i - 1);
        lemma_span(f, c as int);
        assert(behind(f, x, (i - 1) as nat) == f[c as int].first);
        assert(behind(f, x, i) == c + 1);
        lemma_contained_wider(w, f[c as int].first as int, c + 1, low, c + 1);
        lemma_contained_wider(rest, low, f[c as int].first as int, low, c + 1);
        lemma_contained_joined(w, rest, low, c + 1);
        assert forall|y: usize| low <= y < c + 1 implies #[trigger] matching_for(w + rest, y)
            == Some(own_match(f, y)) by {
            lemma_matching_for_extended(w, rest, y);
            if y >= f[c as int].first {
                lemma_untouched(rest, low, f[c as int].first as int, y);
            }
        }
    }
}

/// The matchings of the first `i` children of `x` with themselves, the first
/// child first.
pub open spec fn forward(f: Seq<NodeView>, x: usize, i: nat) -> Seq<MatchedPair>
    decreases i,
{
    if i == 0 {
        Seq::empty()
    } else {
        forward(f, x, (i - 1) as nat) + child_matchings(f, x, x, i - 1, i - 1)
    }
}

/// A node carries its own label.
proof fn lemma_same_label_with_itself(a: NodeView)
    ensures
        same_label(a, a),
{
}

/// Where the children of a node carry different labels, each child is paired
/// by label with itself alone.
proof fn lemma_rows_with_itself(f: Seq<NodeView>, root: usize, x: usize, i: nat)
    requires
        wf(f),
        root < f.len(),
        plain(f, root),
        inside(f, root, x),
        !f[x as int].is_terminal,
        distinct_labels(f, x as int),
        i <= f[x as int].children.len(),
    ensures
        label_rows_sum(f, x, x, i) == prefix_span(f, x as int, i as int),
        label_rows(f, x, x, i) == forward(f, x, i),
        contained(forward(f, x, i), f[x as int].first as int, behind(f, x, i)),
        identity_on(forward(f, x, i), f, f[x as int].first as int, behind(f, x, i)),
    decreases x, 2nat, i,
{
    let low = f[x as int].first as int;
    let n = f[x as int].children.len();
    if i > 0 {
        let c = f[x as int].children[i - 1];
        let w = child_matchings(f, x, x, i - 1, i - 1);
        let rest = forward(f, x, (i - 1) as nat);
        lemma_rows_with_itself(f, root, x, (i - 1) as nat);
        lemma_child_inside(f, root, x, i - 1);
        lemma_child_matchings(f, x, x, i - 1, i - 1);
        lemma_matched_with_itself(f, root, c);
        lemma_same_label_with_itself(f[c as int]);
        lemma_span(f, c as int);
        assert(paired_by_label(f, x, x, i - 1, i - 1));
        lemma_label_row(f, x, x, i - 1, n);
        lemma_label_rows_step(f, x, x, i);
        lemma_child_before(f, x as int, i - 1);
        assert(behind(f, x, (i - 1) as nat) == f[c as int].first);
        assert(behind(f, x, i) == c + 1);
        lemma_contained_wider(w, f[c as int].first as int, c + 1, low, c + 1);
        lemma_contained_wider(rest, low, f[c as int].first as int, low, c + 1);
        lemma_contained_joined(rest, w, low, c + 1);
        assert forall|y: usize| low <= y < c + 1 implies #[trigger] matching_for(rest + w, y)
            == Some(own_match(f, y)) by {
            lemma_matching_for_extended(rest, w, y);
            if y < f[c as int].first {
                lemma_untouched(w, f[c as int].first as int, c + 1, y);
            }
        }
    }
}

/// The matchings of a plain tree with itself pair every node of the tree
/// with itself, as a perfect match, and the score of each node is the number
/// of nodes of its subtree.
pub proof fn lemma_matching_with_itself(f: Seq<NodeView>, x: usize)
    requires
        wf(f),
        x < f.len(),
        plain(f, x),
    ensures
        pairs_with_itself(matchings_of(f, x, x), f, x),
        score_in(matchings_of(f, x, x), x, x) == span(f, x as int),
        forall|y: usize|
            inside(f, x, y) ==> #[trigger] matching_for(matchings_of(f, x, x), y) == Some(
                own_match(f, y),
            ),
{
    reveal(wf);
    assert(crate::forest::node_wf(f, x as int));
    lemma_matched_with_itself(f, x, x);
    assert forall|y: usize| f[x as int].first <= y <= x implies (#[trigger] matching_for(
        matchings_of(f, x, x),
        y,
    )).is_some() && matching_for(matchings_of(f, x, x), y).unwrap().matching_node == y by {}
}

} // verus!

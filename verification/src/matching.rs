pub mod alignment;
pub mod matches;
pub mod matching_entry;
pub mod matchings;
pub mod ordered;
pub mod unchanged;
pub mod unordered;

use vstd::prelude::*;
use crate::forest::{contents, wf, Forest, NodeView};
use crate::matching::matches::{node_matches, Matches};
use crate::matching::matching_entry::MatchingEntry;
use crate::matching::matchings::{entry_of, MatchedPair, Matchings};

verus! {

/// The way by which a cell of the alignment table got its value.
#[derive(Clone, Copy, Debug, PartialEq, Eq)]
pub enum Direction {
    Top,
    Left,
    Diag,
}

/// The number of indices that the subtree at `id` takes in the arena.
pub open spec fn span(f: Seq<NodeView>, id: int) -> nat {
    (id - f[id].first + 1) as nat
}

/// The score that `s` records for the pair of `a` and `b`, 0 where it
/// records none.
pub open spec fn score_in(s: Seq<MatchedPair>, a: usize, b: usize) -> nat {
    match entry_of(s, a, b) {
        Some(e) => e.score as nat,
        None => 0,
    }
}

/// The pair of the two roots `l` and `r` of a comparison, with its score.
pub open spec fn root_pair(f: Seq<NodeView>, l: usize, r: usize, score: nat) -> MatchedPair {
    MatchedPair {
        left: l,
        right: r,
        entry: MatchingEntry {
            score: score as u64,
            is_perfect_match: contents(f, l as int) == contents(f, r as int),
        },
    }
}

/// 1 where `matched` holds, else 0.
pub open spec fn bonus(matched: bool) -> nat {
    if matched {
        1
    } else {
        0
    }
}

/// The matchings between child `i` of `l` and child `j` of `r`.
pub open spec fn child_matchings(
    f: Seq<NodeView>,
    l: usize,
    r: usize,
    i: int,
    j: int,
) -> Seq<MatchedPair>
    decreases l, 0nat, 0nat,
{
    if l < f.len() && r < f.len() && 0 <= i < f[l as int].children.len() && 0 <= j < f[r as int].children.len()
        && f[l as int].children[i] < l {
        matchings_of(f, f[l as int].children[i], f[r as int].children[j])
    } else {
        Seq::empty()
    }
}

/// The score of child `i` of `l` against child `j` of `r`.
pub open spec fn child_score(f: Seq<NodeView>, l: usize, r: usize, i: int, j: int) -> nat
    decreases l, 1nat, 0nat,
{
    score_in(child_matchings(f, l, r, i, j), f[l as int].children[i], f[r as int].children[j])
}

/// The largest total score of an alignment, in order, of the first `i`
/// children of `l` with the first `j` children of `r`.
pub open spec fn lcs(f: Seq<NodeView>, l: usize, r: usize, i: nat, j: nat) -> nat
    decreases l, 2nat, i + j,
{
    if i == 0 || j == 0 {
        0
    } else {
        let left = lcs(f, l, r, i, (j - 1) as nat);
        let top = lcs(f, l, r, (i - 1) as nat, j);
        let diag = lcs(f, l, r, (i - 1) as nat, (j - 1) as nat) + child_score(
            f,
            l,
            r,
            i - 1,
            j - 1,
        );
        if left >= top && left >= diag {
            left
        } else if top >= diag {
            top
        } else {
            diag
        }
    }
}

/// The way the cell `(i, j)` got its value. Where several ways give the
/// largest value, leaving out the last child of `r` is preferred to leaving
/// out the last child of `l`, and pairing the two comes last: the two are
/// paired only where that is strictly better.
pub open spec fn direction(f: Seq<NodeView>, l: usize, r: usize, i: nat, j: nat) -> Direction
    decreases l, 3nat, 0nat,
{
    let left = lcs(f, l, r, i, (j - 1) as nat);
    let top = lcs(f, l, r, (i - 1) as nat, j);
    let diag = lcs(f, l, r, (i - 1) as nat, (j - 1) as nat) + child_score(f, l, r, i - 1, j - 1);
    if left >= top && left >= diag {
        Direction::Left
    } else if top >= diag {
        Direction::Top
    } else {
        Direction::Diag
    }
}

/// The matchings of the children that the way back from the cell `(i, j)`
/// pairs, in the order in which the way meets them.
pub open spec fn backtrack(f: Seq<NodeView>, l: usize, r: usize, i: nat, j: nat) -> Seq<
    MatchedPair,
>
    decreases l, 4nat, i + j,
{
    if i == 0 || j == 0 {
        Seq::empty()
    } else {
        match direction(f, l, r, i, j) {
            Direction::Top => backtrack(f, l, r, (i - 1) as nat, j),
            Direction::Left => backtrack(f, l, r, i, (j - 1) as nat),
            Direction::Diag => child_matchings(f, l, r, i - 1, j - 1) + backtrack(
                f,
                l,
                r,
                (i - 1) as nat,
                (j - 1) as nat,
            ),
        }
    }
}

/// The matchings of two interior nodes whose children are compared in order.
/// The score of the two is that of the best alignment of their children,
/// and one more where they are of the same kind.
pub open spec fn ordered_matchings(f: Seq<NodeView>, l: usize, r: usize) -> Seq<MatchedPair>
    decreases l, 5nat, 0nat,
{
    if l < f.len() && r < f.len() && !f[l as int].is_terminal && !f[r as int].is_terminal {
        let m = f[l as int].children.len();
        let n = f[r as int].children.len();
        backtrack(f, l, r, m, n) + seq![
            root_pair(
                f,
                l,
                r,
                lcs(f, l, r, m, n) + bonus(f[l as int].kind == f[r as int].kind),
            ),
        ]
    } else {
        Seq::empty()
    }
}

/// A node carries a label: a terminal its kind and value, an interior node
/// its identifier, if it has one.
pub open spec fn labeled(a: NodeView) -> bool {
    a.is_terminal || a.identifier.is_some()
}

/// Every child of `p` carries a label.
pub open spec fn all_labeled(f: Seq<NodeView>, p: int) -> bool {
    forall|k: int|
        0 <= k < f[p].children.len() ==> labeled(f[(#[trigger] f[p].children[k]) as int])
}

/// Two nodes carry the same label.
pub open spec fn same_label(a: NodeView, b: NodeView) -> bool {
    if a.is_terminal && b.is_terminal {
        a.kind == b.kind && a.value == b.value
    } else if !a.is_terminal && !b.is_terminal {
        a.identifier == b.identifier
    } else {
        false
    }
}

/// Child `i` of `l` and child `j` of `r` are paired by their label: they
/// carry the same one.
pub open spec fn paired_by_label(f: Seq<NodeView>, l: usize, r: usize, i: int, j: int) -> bool {
    same_label(f[f[l as int].children[i] as int], f[f[r as int].children[j] as int])
}

/// The matchings of the pairs by label of child `i` of `l` with the first
/// `upto` children of `r`.
pub open spec fn label_row(f: Seq<NodeView>, l: usize, r: usize, i: int, upto: nat) -> Seq<
    MatchedPair,
>
    decreases l, 3nat, upto,
{
    if upto == 0 {
        Seq::empty()
    } else {
        label_row(f, l, r, i, (upto - 1) as nat) + (if paired_by_label(f, l, r, i, upto - 1) {
            child_matchings(f, l, r, i, upto - 1)
        } else {
            Seq::empty()
        })
    }
}

/// The sum of the scores of the pairs by label of child `i` of `l` with the
/// first `upto` children of `r`.
pub open spec fn label_row_sum(f: Seq<NodeView>, l: usize, r: usize, i: int, upto: nat) -> nat
    decreases l, 3nat, upto,
{
    if upto == 0 {
        0
    } else {
        label_row_sum(f, l, r, i, (upto - 1) as nat) + (if paired_by_label(f, l, r, i, upto - 1) {
            child_score(f, l, r, i, upto - 1)
        } else {
            0
        })
    }
}

/// The matchings of the pairs by label of the first `upto` children of `l`
/// with the children of `r`.
pub open spec fn label_rows(f: Seq<NodeView>, l: usize, r: usize, upto: nat) -> Seq<MatchedPair>
    decreases l, 4nat, upto,
{
    if upto == 0 {
        Seq::empty()
    } else {
        label_rows(f, l, r, (upto - 1) as nat) + label_row(
            f,
            l,
            r,
            upto - 1,
            f[r as int].children.len(),
        )
    }
}

/// The sum of the scores of the pairs by label of the first `upto` children
/// of `l` with the children of `r`.
pub open spec fn label_rows_sum(f: Seq<NodeView>, l: usize, r: usize, upto: nat) -> nat
    decreases l, 4nat, upto,
{
    if upto == 0 {
        0
    } else {
        label_rows_sum(f, l, r, (upto - 1) as nat) + label_row_sum(
            f,
            l,
            r,
            upto - 1,
            f[r as int].children.len(),
        )
    }
}

/// The matchings of two interior nodes whose children all carry labels: the
/// children are paired by label. The score of the two is the sum of the
/// scores of the pairs, and one more where the two can stand for each other.
pub open spec fn unique_label_matchings(f: Seq<NodeView>, l: usize, r: usize) -> Seq<MatchedPair>
    decreases l, 5nat, 0nat,
{
    if l < f.len() && r < f.len() && !f[l as int].is_terminal && !f[r as int].is_terminal {
        let m = f[l as int].children.len();
        label_rows(f, l, r, m) + seq![
            root_pair(
                f,
                l,
                r,
                label_rows_sum(f, l, r, m) + bonus(node_matches(f[l as int], f[r as int])),
            ),
        ]
    } else {
        Seq::empty()
    }
}

/// The column that a maximum-weight assignment gives to each row of a square
/// matrix of weights.
pub uninterp spec fn kuhn_munkres_columns(weights: Seq<Seq<int>>) -> Seq<usize>;

/// An assignment of `n` rows to `n` columns: each row gets a column of its
/// own.
pub open spec fn is_assignment(columns: Seq<usize>, n: nat) -> bool {
    &&& columns.len() == n
    &&& forall|i: int| 0 <= i < n ==> #[trigger] columns[i] < n
    &&& forall|i: int, j: int|
        0 <= i < n && 0 <= j < n && i != j ==> #[trigger] columns[i] != #[trigger] columns[j]
}

/// The weight of an assignment on the first `upto` rows of a matrix: the sum
/// of the weight that each row has at its column.
pub open spec fn assignment_weight(weights: Seq<Seq<int>>, columns: Seq<usize>, upto: nat) -> int
    decreases upto,
{
    if upto == 0 {
        0
    } else {
        assignment_weight(weights, columns, (upto - 1) as nat) + weights[upto - 1][columns[upto
            - 1] as int]
    }
}

/// The assignment `columns` of the rows of a square matrix weighs at least
/// as much as every other one.
pub open spec fn heaviest(weights: Seq<Seq<int>>, columns: Seq<usize>) -> bool {
    &&& is_assignment(columns, weights.len())
    &&& forall|other: Seq<usize>| #[trigger]
        is_assignment(other, weights.len()) ==> assignment_weight(weights, other, weights.len())
            <= assignment_weight(weights, columns, weights.len())
}

/// The assignment by which the children of `l` and `r` are paired is the
/// heaviest: no way of giving each child of the one a child of the other of
/// its own, the matrix being padded, has a larger sum of scores.
pub open spec fn assigned_best(f: Seq<NodeView>, l: usize, r: usize) -> bool {
    let size = square_size(f, l, r);
    let chosen = kuhn_munkres_columns(weights_rows(f, l, r, size, size));
    size >= 1 ==> {
        &&& is_assignment(chosen, size)
        &&& forall|other: Seq<usize>| #[trigger]
            is_assignment(other, size) ==> assigned_sum(f, l, r, other, size) <= assigned_sum(
                f,
                l,
                r,
                chosen,
                size,
            )
    }
}

/// The weight of pairing child `i` of `l` with child `j` of `r`: their score,
/// and 0 outside the children, where the matrix is padded.
pub open spec fn weight_at(f: Seq<NodeView>, l: usize, r: usize, i: int, j: int) -> int
    decreases l, 2nat, 0nat,
{
    if 0 <= i < f[l as int].children.len() && 0 <= j < f[r as int].children.len() {
        child_score(f, l, r, i, j) as int
    } else {
        0
    }
}

/// The first `upto` weights of row `i`.
pub open spec fn weights_row(f: Seq<NodeView>, l: usize, r: usize, i: int, upto: nat) -> Seq<int>
    decreases l, 3nat, upto,
{
    if upto == 0 {
        Seq::empty()
    } else {
        weights_row(f, l, r, i, (upto - 1) as nat).push(weight_at(f, l, r, i, upto - 1))
    }
}

/// The first `upto` rows of the square matrix of weights of the given size.
pub open spec fn weights_rows(f: Seq<NodeView>, l: usize, r: usize, size: nat, upto: nat) -> Seq<
    Seq<int>,
>
    decreases l, 4nat, upto,
{
    if upto == 0 {
        Seq::empty()
    } else {
        weights_rows(f, l, r, size, (upto - 1) as nat).push(weights_row(f, l, r, upto - 1, size))
    }
}

/// The matchings of the pairs that the assignment `columns` selects among
/// the first `upto` rows: those of strictly positive weight.
pub open spec fn assigned_pairs(
    f: Seq<NodeView>,
    l: usize,
    r: usize,
    columns: Seq<usize>,
    upto: nat,
) -> Seq<MatchedPair>
    decreases l, 3nat, upto,
{
    if upto == 0 {
        Seq::empty()
    } else {
        assigned_pairs(f, l, r, columns, (upto - 1) as nat) + (if weight_at(
            f,
            l,
            r,
            upto - 1,
            columns[upto - 1] as int,
        ) > 0 {
            child_matchings(f, l, r, upto - 1, columns[upto - 1] as int)
        } else {
            Seq::empty()
        })
    }
}

/// The value of the assignment `columns` on the first `upto` rows.
pub open spec fn assigned_sum(
    f: Seq<NodeView>,
    l: usize,
    r: usize,
    columns: Seq<usize>,
    upto: nat,
) -> nat
    decreases l, 3nat, upto,
{
    if upto == 0 {
        0
    } else {
        assigned_sum(f, l, r, columns, (upto - 1) as nat) + weight_at(
            f,
            l,
            r,
            upto - 1,
            columns[upto - 1] as int,
        ) as nat
    }
}

/// The larger of the numbers of children of `l` and of `r`.
pub open spec fn square_size(f: Seq<NodeView>, l: usize, r: usize) -> nat {
    if f[l as int].children.len() >= f[r as int].children.len() {
        f[l as int].children.len()
    } else {
        f[r as int].children.len()
    }
}

/// The matchings of two interior nodes that can stand for each other and
/// have a child without a label: the children are paired by a maximum-weight
/// assignment on the matrix of their scores, padded with zeros to a square.
/// The score of the two is the value of the assignment and one more.
pub open spec fn assignment_matchings(f: Seq<NodeView>, l: usize, r: usize) -> Seq<MatchedPair>
    decreases l, 5nat, 0nat,
{
    if l < f.len() && r < f.len() && !f[l as int].is_terminal && !f[r as int].is_terminal
        && node_matches(f[l as int], f[r as int]) {
        let size = square_size(f, l, r);
        let columns = kuhn_munkres_columns(weights_rows(f, l, r, size, size));
        assigned_pairs(f, l, r, columns, size) + seq![
            root_pair(f, l, r, assigned_sum(f, l, r, columns, size) + 1),
        ]
    } else {
        Seq::empty()
    }
}

/// The matchings of two interior nodes whose children may stand in any
/// order.
pub open spec fn unordered_matchings(f: Seq<NodeView>, l: usize, r: usize) -> Seq<MatchedPair>
    decreases l, 6nat, 0nat,
{
    if l < f.len() && r < f.len() && !f[l as int].is_terminal && !f[r as int].is_terminal {
        if all_labeled(f, l as int) && all_labeled(f, r as int) {
            unique_label_matchings(f, l, r)
        } else {
            assignment_matchings(f, l, r)
        }
    } else {
        Seq::empty()
    }
}

/// The matchings of the nodes `l` and `r` and of what lies below them.
pub open spec fn matchings_of(f: Seq<NodeView>, l: usize, r: usize) -> Seq<MatchedPair>
    decreases l, 7nat, 0nat,
{
    if l >= f.len() || r >= f.len() {
        Seq::empty()
    } else if !node_matches(f[l as int], f[r as int]) {
        Seq::empty()
    } else if f[l as int].is_terminal {
        let same = f[l as int].kind == f[r as int].kind && f[l as int].value == f[r as int].value;
        seq![
            MatchedPair {
                left: l,
                right: r,
                entry: MatchingEntry { score: if same { 1 } else { 0 }, is_perfect_match: same },
            },
        ]
    } else if f[l as int].are_children_unordered && f[r as int].are_children_unordered {
        unordered_matchings(f, l, r)
    } else {
        ordered_matchings(f, l, r)
    }
}

/// What the matchings and the score of two children are.
pub(crate) proof fn lemma_child_matchings(f: Seq<NodeView>, l: usize, r: usize, i: int, j: int)
    requires
        l < f.len(),
        r < f.len(),
        0 <= i < f[l as int].children.len(),
        0 <= j < f[r as int].children.len(),
        f[l as int].children[i] < l,
    ensures
        child_matchings(f, l, r, i, j) == matchings_of(
            f,
            f[l as int].children[i],
            f[r as int].children[j],
        ),
        child_score(f, l, r, i, j) == score_in(
            matchings_of(f, f[l as int].children[i], f[r as int].children[j]),
            f[l as int].children[i],
            f[r as int].children[j],
        ),
        weight_at(f, l, r, i, j) == child_score(f, l, r, i, j),
        paired_by_label(f, l, r, i, j) == same_label(
            f[f[l as int].children[i] as int],
            f[f[r as int].children[j] as int],
        ),
{
}

/// How a cell of the alignment table follows from the cells before it.
pub(crate) proof fn lemma_lcs_step(f: Seq<NodeView>, l: usize, r: usize, i: nat, j: nat)
    requires
        i >= 1,
        j >= 1,
    ensures
        ({
            let left = lcs(f, l, r, i, (j - 1) as nat);
            let top = lcs(f, l, r, (i - 1) as nat, j);
            let diag = lcs(f, l, r, (i - 1) as nat, (j - 1) as nat) + child_score(
                f,
                l,
                r,
                i - 1,
                j - 1,
            );
            if left >= top && left >= diag {
                lcs(f, l, r, i, j) == left && direction(f, l, r, i, j) == Direction::Left
            } else if top >= diag {
                lcs(f, l, r, i, j) == top && direction(f, l, r, i, j) == Direction::Top
            } else {
                lcs(f, l, r, i, j) == diag && direction(f, l, r, i, j) == Direction::Diag
            }
        }),
{
}

/// How the way back goes on from a cell.
pub(crate) proof fn lemma_backtrack_step(f: Seq<NodeView>, l: usize, r: usize, i: nat, j: nat)
    requires
        i >= 1,
        j >= 1,
    ensures
        backtrack(f, l, r, i, j) == (match direction(f, l, r, i, j) {
            Direction::Top => backtrack(f, l, r, (i - 1) as nat, j),
            Direction::Left => backtrack(f, l, r, i, (j - 1) as nat),
            Direction::Diag => child_matchings(f, l, r, i - 1, j - 1) + backtrack(
                f,
                l,
                r,
                (i - 1) as nat,
                (j - 1) as nat,
            ),
        }),
{
}

/// How a row of pairs by label grows by one child of `r`.
pub(crate) proof fn lemma_label_row_step(f: Seq<NodeView>, l: usize, r: usize, i: int, upto: nat)
    requires
        upto >= 1,
    ensures
        label_row(f, l, r, i, upto) == label_row(f, l, r, i, (upto - 1) as nat) + (
        if paired_by_label(f, l, r, i, upto - 1) {
            child_matchings(f, l, r, i, upto - 1)
        } else {
            Seq::empty()
        }),
        label_row_sum(f, l, r, i, upto) == label_row_sum(f, l, r, i, (upto - 1) as nat) + (
        if paired_by_label(f, l, r, i, upto - 1) {
            child_score(f, l, r, i, upto - 1)
        } else {
            0
        }),
{
}

/// How the pairs by label grow by one child of `l`.
pub(crate) proof fn lemma_label_rows_step(f: Seq<NodeView>, l: usize, r: usize, upto: nat)
    requires
        upto >= 1,
    ensures
        label_rows(f, l, r, upto) == label_rows(f, l, r, (upto - 1) as nat) + label_row(
            f,
            l,
            r,
            upto - 1,
            f[r as int].children.len(),
        ),
        label_rows_sum(f, l, r, upto) == label_rows_sum(f, l, r, (upto - 1) as nat)
            + label_row_sum(f, l, r, upto - 1, f[r as int].children.len()),
{
}

/// How the selected pairs grow by one row of the assignment.
pub(crate) proof fn lemma_assigned_step(
    f: Seq<NodeView>,
    l: usize,
    r: usize,
    columns: Seq<usize>,
    upto: nat,
)
    requires
        upto >= 1,
    ensures
        assigned_pairs(f, l, r, columns, upto) == assigned_pairs(
            f,
            l,
            r,
            columns,
            (upto - 1) as nat,
        ) + (if weight_at(f, l, r, upto - 1, columns[upto - 1] as int) > 0 {
            child_matchings(f, l, r, upto - 1, columns[upto - 1] as int)
        } else {
            Seq::empty()
        }),
        assigned_sum(f, l, r, columns, upto) == assigned_sum(f, l, r, columns, (upto - 1) as nat)
            + weight_at(f, l, r, upto - 1, columns[upto - 1] as int) as nat,
        weight_at(f, l, r, upto - 1, columns[upto - 1] as int) >= 0,
        !(0 <= upto - 1 < f[l as int].children.len() && 0 <= columns[upto - 1]
            < f[r as int].children.len()) ==> weight_at(
            f,
            l,
            r,
            upto - 1,
            columns[upto - 1] as int,
        ) == 0,
{
}

/// The score of two interior nodes whose children are compared in order:
/// the best total of an alignment of their children, and one more where the
/// two are of the same kind.
pub open spec fn ordered_total(f: Seq<NodeView>, l: usize, r: usize) -> nat {
    lcs(f, l, r, f[l as int].children.len(), f[r as int].children.len()) + bonus(
        f[l as int].kind == f[r as int].kind,
    )
}

/// The score of two interior nodes whose children are paired by label: the
/// sum of the scores of the pairs, and one more where the two can stand for
/// each other.
pub open spec fn label_total(f: Seq<NodeView>, l: usize, r: usize) -> nat {
    label_rows_sum(f, l, r, f[l as int].children.len()) + bonus(
        node_matches(f[l as int], f[r as int]),
    )
}

/// The score of two interior nodes whose children are paired by assignment:
/// the value of the assignment and one more.
pub open spec fn assignment_total(f: Seq<NodeView>, l: usize, r: usize) -> nat {
    let size = square_size(f, l, r);
    assigned_sum(f, l, r, kuhn_munkres_columns(weights_rows(f, l, r, size, size)), size) + 1
}

/// The score of two nodes that can stand for each other, as a natural
/// number: 1 for two terminals, and for two interior nodes the total of the
/// way by which their children are compared.
pub open spec fn root_total(f: Seq<NodeView>, l: usize, r: usize) -> nat {
    if f[l as int].is_terminal {
        1
    } else if f[l as int].are_children_unordered && f[r as int].are_children_unordered {
        if all_labeled(f, l as int) && all_labeled(f, r as int) {
            label_total(f, l, r)
        } else {
            assignment_total(f, l, r)
        }
    } else {
        ordered_total(f, l, r)
    }
}

/// The entry of the two roots of a comparison says whether the two subtrees
/// hold the same text, and scores at least `least`.
pub open spec fn root_entry_is(
    s: Seq<MatchedPair>,
    f: Seq<NodeView>,
    l: usize,
    r: usize,
    least: nat,
) -> bool {
    match entry_of(s, l, r) {
        Some(entry) => {
            &&& entry.is_perfect_match == (contents(f, l as int) == contents(f, r as int))
            &&& entry.score >= least
        },
        None => false,
    }
}

/// Matches the nodes `left` and `right` and what lies below them. Nodes that
/// cannot stand for each other get no matchings. For nodes that can, the
/// entry of the two is perfect exactly if both subtrees hold the same text,
/// and its score is at least 1 where the two are of the same kind.
pub fn calculate_matchings(forest: &Forest, left: usize, right: usize) -> (matchings: Matchings)
    requires
        wf(forest@),
        left < forest@.len(),
        right < forest@.len(),
    ensures
        matchings@ == matchings_of(forest@, left, right),
        ordered::admissible(matchings@, forest@, left as int, right as int),
        node_matches(forest@[left as int], forest@[right as int]) ==> root_entry_is(
            matchings@,
            forest@,
            left,
            right,
            bonus(forest@[left as int].kind == forest@[right as int].kind),
        ),
        !node_matches(forest@[left as int], forest@[right as int]) ==> matchings@.len() == 0,
        node_matches(forest@[left as int], forest@[right as int]) ==> score_in(
            matchings@,
            left,
            right,
        ) == root_total(forest@, left, right) && root_total(forest@, left, right) <= u64::MAX,
    decreases left, 3nat,
{
    let left_node = forest.node(left);
    let right_node = forest.node(right);
    if !left_node.matches(right_node) {
        return Matchings::empty();
    }
    if left_node.is_terminal() {
        let same = left_node.kind == right_node.kind && forest.terminal_values_equal(left, right);
        let entry = MatchingEntry { score: if same { 1 } else { 0 }, is_perfect_match: same };
        proof {
            ordered::lemma_span(forest@, left as int);
            ordered::lemma_span(forest@, right as int);
            ordered::lemma_product_mono(1, span(forest@, left as int), 1, span(forest@, right as int));
        }
        Matchings::from_single(left, right, entry)
    } else if left_node.are_children_unordered() && right_node.are_children_unordered() {
        unordered::calculate_matchings(forest, left, right)
    } else {
        ordered::calculate_matchings(forest, left, right)
    }
}

} // verus!

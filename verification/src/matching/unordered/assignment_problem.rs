use vstd::prelude::*;
use crate::forest::{lemma_child_before, wf, Forest, NodeView};
use crate::matching::matches::{node_matches, Matches};
use crate::matching::matching_entry::MatchingEntry;
use crate::matching::matchings::{level, lemma_level_extended, Matchings};
use crate::matching::ordered::{
    admissible, lemma_admissible_child, lemma_prefix_span, lemma_product_fits, lemma_product_mono,
    lemma_rows_begin, lemma_score_in_within, lemma_scores_within_extended, lemma_span,
    lemma_sub_push, lemma_sub_read, prefix_span, scores_within, sub_row_ok,
};
use crate::matching::unordered::unique_label::{lemma_row_done, lemma_sum_step};
use crate::matching::{
    assigned_best, assignment_weight, heaviest, is_assignment, assigned_pairs, assigned_sum, assignment_matchings, child_matchings, child_score,
    kuhn_munkres_columns, root_pair, span, square_size, weight_at, weights_row, weights_rows,
};

verus! {

/// A matrix of weights as rows of mathematical integers.
pub open spec fn matrix_view(weights: Seq<Vec<i128>>) -> Seq<Seq<int>> {
    weights.map_values(|row: Vec<i128>| row@.map_values(|x: i128| x as int))
}

/// Calls `pathfinding::kuhn_munkres::kuhn_munkres` on the square matrix that
/// `pathfinding::matrix::Matrix::from_rows` builds of `weights`, and hands on
/// the assignment: for each row the column that it gets. The contract names
/// that assignment, and claims what the outside function documents: that it
/// has one column for each row, that each column lies in the matrix and is
/// given to one row only, and that no such assignment has a larger sum of
/// weights. None of this is proved here. The rows are
/// required to be as many as each of them is long, so that the matrix can be
/// built and has no more rows than columns, and the weights to be small
/// enough for the sums of weights that the outside function forms.
#[verifier::external_body]
fn kuhn_munkres_assignment(weights: Vec<Vec<i128>>) -> (columns: Vec<usize>)
    requires
        1 <= weights@.len() <= u32::MAX,
        forall|i: int| 0 <= i < weights@.len() ==> (#[trigger] weights@[i])@.len() == weights@.len(),
        forall|i: int, j: int|
            0 <= i < weights@.len() && 0 <= j < weights@.len() ==> 0 <= #[trigger] weights@[i]@[j]
                <= u64::MAX,
    ensures
        columns@ == kuhn_munkres_columns(matrix_view(weights@)),
        columns@.len() == weights@.len(),
        forall|i: int| 0 <= i < columns@.len() ==> #[trigger] columns@[i] < weights@.len(),
        heaviest(matrix_view(weights@), columns@),
{
    let matrix = pathfinding::matrix::Matrix::from_rows(weights).unwrap();
    pathfinding::kuhn_munkres::kuhn_munkres(&matrix).1
}

/// The scores of child `i` of `l` against the first `upto` children of `r`.
pub open spec fn score_row_ok(
    f: Seq<NodeView>,
    l: usize,
    r: usize,
    row: Seq<u64>,
    i: int,
    upto: nat,
) -> bool {
    &&& row.len() == upto
    &&& forall|b: int|
        0 <= b < upto ==> {
            &&& #[trigger] row[b] == child_score(f, l, r, i, b)
            &&& row[b] <= span(f, f[l as int].children[i] as int) * span(
                f,
                f[r as int].children[b] as int,
            )
        }
}

/// Matches child `i` of `left` with every child of `right`.
fn score_row(forest: &Forest, left: usize, right: usize, i: usize) -> (scored: (
    Vec<u64>,
    Vec<Matchings>,
))
    requires
        wf(forest@),
        left < forest@.len(),
        right < forest@.len(),
        !forest@[left as int].is_terminal,
        !forest@[right as int].is_terminal,
        i < forest@[left as int].children.len(),
    ensures
        score_row_ok(
            forest@,
            left,
            right,
            scored.0@,
            i as int,
            forest@[right as int].children.len(),
        ),
        sub_row_ok(
            forest@,
            left,
            right,
            scored.1@,
            (i + 1) as nat,
            forest@[right as int].children.len(),
        ),
    decreases left, 0nat,
{
    let children_left = forest.node(left).children();
    let children_right = forest.node(right).children();
    let n = children_right.len();
    let child_left = children_left[i];
    let ghost f = forest@;
    let mut scores: Vec<u64> = Vec::new();
    let mut subs: Vec<Matchings> = Vec::new();
    let mut j: usize = 0;
    proof {
        lemma_child_before(f, left as int, i as int);
        lemma_rows_begin(f, left, right, (i + 1) as nat);
    }
    while j < n
        invariant
            j <= n,
            f == forest@,
            wf(f),
            left < f.len(),
            right < f.len(),
            !f[left as int].is_terminal,
            !f[right as int].is_terminal,
            i < f[left as int].children.len(),
            children_left@ == f[left as int].children,
            children_right@ == f[right as int].children,
            n == children_right@.len(),
            child_left == children_left@[i as int],
            child_left < left,
            score_row_ok(f, left, right, scores@, i as int, j as nat),
            sub_row_ok(f, left, right, subs@, (i + 1) as nat, j as nat),
            j == 0 ==> subs@.len() == 0,
        decreases n - j,
    {
        let child_right = children_right[j];
        proof {
            lemma_child_before(f, right as int, j as int);
        }
        let w = crate::matching::calculate_matchings(forest, child_left, child_right);
        let s = match w.get_matching_entry(child_left, child_right) {
            Some(e) => e.score,
            None => 0,
        };
        proof {
            crate::matching::lemma_child_matchings(f, left, right, i as int, j as int);
            assert(w@ == child_matchings(f, left, right, i as int, j as int));
            lemma_score_in_within(
                w@,
                child_left,
                child_right,
                span(f, child_left as int) * span(f, child_right as int),
            );
            lemma_admissible_child(w@, f, left as int, right as int, i as int, j as int);
            lemma_sub_push(f, left, right, subs@, (i + 1) as nat, j as nat, w);
        }
        scores.push(s);
        subs.push(w);
        j += 1;
    }
    (scores, subs)
}

/// One row of the square matrix of weights.
fn weights_of_row(
    forest: &Forest,
    left: usize,
    right: usize,
    scores: &Vec<Vec<u64>>,
    i: usize,
    size: usize,
) -> (row: Vec<i128>)
    requires
        left < forest@.len(),
        right < forest@.len(),
        scores@.len() == forest@[left as int].children.len(),
        forall|a: int|
            0 <= a < scores@.len() ==> score_row_ok(
                forest@,
                left,
                right,
                (#[trigger] scores@[a])@,
                a,
                forest@[right as int].children.len(),
            ),
    ensures
        row@.map_values(|x: i128| x as int) == weights_row(
            forest@,
            left,
            right,
            i as int,
            size as nat,
        ),
        row@.len() == size,
        forall|j: int| 0 <= j < size ==> 0 <= #[trigger] row@[j] <= u64::MAX,
{
    let ghost f = forest@;
    let m = scores.len();
    let mut row: Vec<i128> = Vec::new();
    let mut j: usize = 0;
    proof {
        assert(row@.map_values(|x: i128| x as int) =~= weights_row(f, left, right, i as int, 0));
    }
    while j < size
        invariant
            j <= size,
            f == forest@,
            left < f.len(),
            right < f.len(),
            m == scores@.len(),
            m == f[left as int].children.len(),
            forall|a: int|
                0 <= a < scores@.len() ==> score_row_ok(
                    f,
                    left,
                    right,
                    (#[trigger] scores@[a])@,
                    a,
                    f[right as int].children.len(),
                ),
            row@.len() == j,
            row@.map_values(|x: i128| x as int) == weights_row(
                f,
                left,
                right,
                i as int,
                j as nat,
            ),
            forall|b: int| 0 <= b < j ==> 0 <= #[trigger] row@[b] <= u64::MAX,
        decreases size - j,
    {
        let ghost before = row@;
        let value: i128 = if i < m {
            proof {
                assert(score_row_ok(
                    f,
                    left,
                    right,
                    scores@[i as int]@,
                    i as int,
                    f[right as int].children.len(),
                ));
            }
            if j < scores[i].len() {
                scores[i][j] as i128
            } else {
                0
            }
        } else {
            0
        };
        row.push(value);
        proof {
            if i < m && j < f[right as int].children.len() {
                assert(scores@[i as int]@[j as int] == child_score(f, left, right, i as int, j as int));
            }
            assert(value == weight_at(f, left, right, i as int, j as int));
            assert(row@.map_values(|x: i128| x as int) =~= before.map_values(|x: i128| x as int).push(
                value as int,
            ));
        }
        j += 1;
    }
    row
}

/// The square matrix of weights: the scores of the children, padded with
/// zeros.
fn weights_matrix(
    forest: &Forest,
    left: usize,
    right: usize,
    scores: &Vec<Vec<u64>>,
    size: usize,
) -> (weights: Vec<Vec<i128>>)
    requires
        left < forest@.len(),
        right < forest@.len(),
        scores@.len() == forest@[left as int].children.len(),
        forall|a: int|
            0 <= a < scores@.len() ==> score_row_ok(
                forest@,
                left,
                right,
                (#[trigger] scores@[a])@,
                a,
                forest@[right as int].children.len(),
            ),
    ensures
        matrix_view(weights@) == weights_rows(forest@, left, right, size as nat, size as nat),
        weights@.len() == size,
        forall|i: int| 0 <= i < size ==> (#[trigger] weights@[i])@.len() == size,
        forall|i: int, j: int|
            0 <= i < size && 0 <= j < size ==> 0 <= #[trigger] weights@[i]@[j] <= u64::MAX,
{
    let ghost f = forest@;
    let mut weights: Vec<Vec<i128>> = Vec::new();
    let mut i: usize = 0;
    proof {
        assert(matrix_view(weights@) =~= weights_rows(f, left, right, size as nat, 0));
    }
    while i < size
        invariant
            i <= size,
            f == forest@,
            left < f.len(),
            right < f.len(),
            scores@.len() == f[left as int].children.len(),
            forall|a: int|
                0 <= a < scores@.len() ==> score_row_ok(
                    f,
                    left,
                    right,
                    (#[trigger] scores@[a])@,
                    a,
                    f[right as int].children.len(),
                ),
            weights@.len() == i,
            matrix_view(weights@) == weights_rows(f, left, right, size as nat, i as nat),
            forall|a: int| 0 <= a < i ==> (#[trigger] weights@[a])@.len() == size,
            forall|a: int, b: int|
                0 <= a < i && 0 <= b < size ==> 0 <= #[trigger] weights@[a]@[b] <= u64::MAX,
        decreases size - i,
    {
        let ghost before = weights@;
        let row = weights_of_row(forest, left, right, scores, i, size);
        weights.push(row);
        proof {
            assert(matrix_view(weights@) =~= matrix_view(before).push(
                row@.map_values(|x: i128| x as int),
            ));
        }
        i += 1;
    }
    weights
}

/// Matches two interior nodes that can stand for each other by a
/// maximum-weight assignment of their children: no other way of giving each
/// child a partner of its own scores more. Other nodes get no matchings.
pub fn calculate_matchings(forest: &Forest, left: usize, right: usize) -> (matchings: Matchings)
    requires
        wf(forest@),
        left < forest@.len(),
        right < forest@.len(),
    ensures
        matchings@ == assignment_matchings(forest@, left, right),
        admissible(matchings@, forest@, left as int, right as int),
        !forest@[left as int].is_terminal && !forest@[right as int].is_terminal && node_matches(
            forest@[left as int],
            forest@[right as int],
        ) ==> crate::matching::root_entry_is(matchings@, forest@, left, right, 1),
        !forest@[left as int].is_terminal && !forest@[right as int].is_terminal && node_matches(
            forest@[left as int],
            forest@[right as int],
        ) ==> crate::matching::score_in(matchings@, left, right) == crate::matching::assignment_total(
            forest@,
            left,
            right,
        ) && crate::matching::assignment_total(forest@, left, right) <= u64::MAX,
        !forest@[left as int].is_terminal && !forest@[right as int].is_terminal && node_matches(
            forest@[left as int],
            forest@[right as int],
        ) ==> assigned_best(forest@, left, right),
    decreases left, 1nat,
{
    let left_node = forest.node(left);
    let right_node = forest.node(right);
    if left_node.is_terminal() || right_node.is_terminal() {
        return Matchings::empty();
    }
    if !left_node.matches(right_node) {
        return Matchings::empty();
    }
    let m = left_node.children().len();
    let n = right_node.children().len();
    let ghost f = forest@;
    let mut scores: Vec<Vec<u64>> = Vec::new();
    let mut subs: Vec<Vec<Matchings>> = Vec::new();
    let mut i: usize = 0;
    while i < m
        invariant
            i <= m,
            f == forest@,
            wf(f),
            left < f.len(),
            right < f.len(),
            !f[left as int].is_terminal,
            !f[right as int].is_terminal,
            m == f[left as int].children.len(),
            n == f[right as int].children.len(),
            scores@.len() == i,
            subs@.len() == i,
            forall|a: int|
                0 <= a < scores@.len() ==> score_row_ok(
                    f,
                    left,
                    right,
                    (#[trigger] scores@[a])@,
                    a,
                    n as nat,
                ),
            forall|a: int|
                0 <= a < subs@.len() ==> sub_row_ok(
                    f,
                    left,
                    right,
                    (#[trigger] subs@[a])@,
                    (a + 1) as nat,
                    n as nat,
                ),
        decreases m - i,
    {
        let (score_row, sub_row) = score_row(forest, left, right, i);
        scores.push(score_row);
        subs.push(sub_row);
        i += 1;
    }
    let size = if m >= n {
        m
    } else {
        n
    };
    proof {
        lemma_span(f, left as int);
        lemma_span(f, right as int);
    }
    let columns = if size == 0 {
        Vec::new()
    } else {
        let weights = weights_matrix(forest, left, right, &scores, size);
        let ghost matrix = matrix_view(weights@);
        let columns = kuhn_munkres_assignment(weights);
        proof {
            assert(matrix.len() == size);
            lemma_assigned_is_weight(f, left, right, size as nat, columns@, size as nat);
            assert forall|other: Seq<usize>| #[trigger]
                is_assignment(other, size as nat) implies assigned_sum(
                f,
                left,
                right,
                other,
                size as nat,
            ) <= assigned_sum(f, left, right, columns@, size as nat) by {
                lemma_assigned_is_weight(f, left, right, size as nat, other, size as nat);
            }
        }
        columns
    };
    let (pairs, sum) = selected(forest, left, right, &scores, &subs, &columns, size);
    proof {
        lemma_product_fits(span(f, left as int), span(f, right as int));
    }
    let entry = MatchingEntry::new(forest, left, right, sum + 1);
    let root = Matchings::from_single(left, right, entry);
    let mut result = pairs;
    let ghost before = result@;
    result.extend(&root);
    proof {
        let limit = span(f, left as int) * span(f, right as int);
        let chosen = kuhn_munkres_columns(weights_rows(f, left, right, size as nat, size as nat));
        if size == 0 {
            assert(assigned_pairs(f, left, right, columns@, 0) == assigned_pairs(
                f,
                left,
                right,
                chosen,
                0,
            ));
            assert(assigned_sum(f, left, right, columns@, 0) == assigned_sum(
                f,
                left,
                right,
                chosen,
                0,
            ));
        }
        assert(root@[0] == root_pair(
            f,
            left,
            right,
            assigned_sum(f, left, right, chosen, size as nat) + 1,
        ));
        lemma_scores_within_extended(before, root@, limit);
        if f[left as int].depth == f[right as int].depth {
            assert(level(root@, f));
            lemma_level_extended(before, root@, f);
        }
        assert(result@.last() == root@[0]);
    }
    result
}

/// Gathers the matchings of the pairs of strictly positive weight that the
/// assignment selects, and the value of the assignment.
fn selected(
    forest: &Forest,
    left: usize,
    right: usize,
    scores: &Vec<Vec<u64>>,
    subs: &Vec<Vec<Matchings>>,
    columns: &Vec<usize>,
    size: usize,
) -> (found: (Matchings, u64))
    requires
        wf(forest@),
        left < forest@.len(),
        right < forest@.len(),
        !forest@[left as int].is_terminal,
        !forest@[right as int].is_terminal,
        size == square_size(forest@, left, right),
        scores@.len() == forest@[left as int].children.len(),
        subs@.len() == forest@[left as int].children.len(),
        forall|a: int|
            0 <= a < scores@.len() ==> score_row_ok(
                forest@,
                left,
                right,
                (#[trigger] scores@[a])@,
                a,
                forest@[right as int].children.len(),
            ),
        forall|a: int|
            0 <= a < subs@.len() ==> sub_row_ok(
                forest@,
                left,
                right,
                (#[trigger] subs@[a])@,
                (a + 1) as nat,
                forest@[right as int].children.len(),
            ),
        size > 0 ==> columns@.len() == size,
        forall|i: int| 0 <= i < columns@.len() ==> #[trigger] columns@[i] < size,
    ensures
        found.0@ == assigned_pairs(forest@, left, right, columns@, size as nat),
        found.1 == assigned_sum(forest@, left, right, columns@, size as nat),
        found.1 <= (span(forest@, left as int) - 1) * (span(forest@, right as int) - 1),
        scores_within(found.0@, span(forest@, left as int) * span(forest@, right as int)),
        forest@[left as int].depth == forest@[right as int].depth ==> level(found.0@, forest@),
{
    let ghost f = forest@;
    let ghost big = (span(f, right as int) - 1) as nat;
    let ghost limit = span(f, left as int) * span(f, right as int);
    let m = scores.len();
    let mut result = Matchings::empty();
    let mut sum: u64 = 0;
    let mut i: usize = 0;
    proof {
        lemma_span(f, left as int);
        lemma_span(f, right as int);
        lemma_product_fits(span(f, left as int), span(f, right as int));
        assert(level(result@, f));
    }
    while i < size
        invariant
            i <= size,
            f == forest@,
            wf(f),
            left < f.len(),
            right < f.len(),
            !f[left as int].is_terminal,
            !f[right as int].is_terminal,
            size == square_size(f, left, right),
            m == f[left as int].children.len(),
            scores@.len() == m,
            subs@.len() == m,
            forall|a: int|
                0 <= a < scores@.len() ==> score_row_ok(
                    f,
                    left,
                    right,
                    (#[trigger] scores@[a])@,
                    a,
                    f[right as int].children.len(),
                ),
            forall|a: int|
                0 <= a < subs@.len() ==> sub_row_ok(
                    f,
                    left,
                    right,
                    (#[trigger] subs@[a])@,
                    (a + 1) as nat,
                    f[right as int].children.len(),
                ),
            size > 0 ==> columns@.len() == size,
            forall|k: int| 0 <= k < columns@.len() ==> #[trigger] columns@[k] < size,
            big == span(f, right as int) - 1,
            limit == span(f, left as int) * span(f, right as int),
            1 <= span(f, left as int) <= u32::MAX,
            1 <= span(f, right as int) <= u32::MAX,
            result@ == assigned_pairs(f, left, right, columns@, i as nat),
            sum == assigned_sum(f, left, right, columns@, i as nat),
            sum <= prefix_span(f, left as int, if i <= m {
                i as int
            } else {
                m as int
            }) * big,
            scores_within(result@, limit),
            f[left as int].depth == f[right as int].depth ==> level(result@, f),
        decreases size - i,
    {
        let j = columns[i];
        let ghost before = result@;
        proof {
            crate::matching::lemma_assigned_step(f, left, right, columns@, (i + 1) as nat);
        }
        if i < m {
            proof {
                assert(score_row_ok(
                    f,
                    left,
                    right,
                    scores@[i as int]@,
                    i as int,
                    f[right as int].children.len(),
                ));
                assert(sub_row_ok(
                    f,
                    left,
                    right,
                    subs@[i as int]@,
                    (i + 1) as nat,
                    f[right as int].children.len(),
                ));
                lemma_prefix_span(f, left as int, i as int);
                lemma_product_mono(
                    prefix_span(f, left as int, i as int),
                    prefix_span(f, left as int, i + 1),
                    big,
                    big,
                );
            }
            if j < scores[i].len() {
                let s = scores[i][j];
                proof {
                    let child_left = f[left as int].children[i as int];
                    let child_right = f[right as int].children[j as int];
                    lemma_sub_read(
                        f,
                        left,
                        right,
                        subs@[i as int]@,
                        (i + 1) as nat,
                        f[right as int].children.len(),
                        j as int,
                    );
                    let w = subs@[i as int]@[j as int]@;
                    lemma_child_before(f, left as int, i as int);
                    lemma_child_before(f, right as int, j as int);
                    crate::matching::lemma_child_matchings(f, left, right, i as int, j as int);
                    assert(s == weight_at(f, left, right, i as int, j as int));
                    assert(w == child_matchings(f, left, right, i as int, j as int));
                    lemma_prefix_span(f, right as int, j as int);
                    lemma_sum_step(
                        sum as nat,
                        s as nat,
                        prefix_span(f, left as int, i as int),
                        span(f, child_left as int),
                        big,
                        0,
                        span(f, child_right as int),
                        big,
                    );
                    lemma_row_done(
                        (sum + s) as nat,
                        prefix_span(f, left as int, i as int),
                        span(f, child_left as int),
                        prefix_span(f, left as int, i + 1),
                        big,
                        big,
                    );
                    lemma_product_mono(
                        prefix_span(f, left as int, i + 1),
                        (span(f, left as int) - 1) as nat,
                        big,
                        big,
                    );
                    lemma_product_fits(span(f, left as int), span(f, right as int));
                }
                if s > 0 {
                    result.extend(&subs[i][j]);
                    proof {
                        let w = subs@[i as int]@[j as int]@;
                        lemma_scores_within_extended(before, w, limit);
                        if f[left as int].depth == f[right as int].depth {
                            lemma_level_extended(before, w, f);
                        }
                    }
                }
                sum = sum + s;
            }
        }
        proof {
            assert(result@ =~= assigned_pairs(f, left, right, columns@, (i + 1) as nat));
        }
        i += 1;
    }
    proof {
        if m > 0 {
            lemma_prefix_span(f, left as int, m - 1);
        }
        lemma_product_mono(
            prefix_span(f, left as int, m as int),
            (span(f, left as int) - 1) as nat,
            big,
            big,
        );
    }
    (result, sum)
}

/// A cell of the padded matrix of weights holds the weight of its two
/// children.
proof fn lemma_weights_cell(f: Seq<NodeView>, l: usize, r: usize, size: nat, upto: nat, i: int, j: int)
    requires
        0 <= i < upto,
        0 <= j < size,
    ensures
        weights_rows(f, l, r, size, upto).len() == upto,
        weights_rows(f, l, r, size, upto)[i].len() == size,
        weights_rows(f, l, r, size, upto)[i][j] == weight_at(f, l, r, i, j),
    decreases upto,
{
    lemma_weights_len(f, l, r, size, upto);
    if i < upto - 1 {
        lemma_weights_cell(f, l, r, size, (upto - 1) as nat, i, j);
    } else {
        lemma_weights_row_cell(f, l, r, i, size, j);
    }
}

/// The matrix of weights has as many rows as were asked for.
proof fn lemma_weights_len(f: Seq<NodeView>, l: usize, r: usize, size: nat, upto: nat)
    ensures
        weights_rows(f, l, r, size, upto).len() == upto,
    decreases upto,
{
    if upto > 0 {
        lemma_weights_len(f, l, r, size, (upto - 1) as nat);
    }
}

/// A cell of a row of weights holds the weight of its two children.
proof fn lemma_weights_row_cell(f: Seq<NodeView>, l: usize, r: usize, i: int, upto: nat, j: int)
    requires
        0 <= j < upto,
    ensures
        weights_row(f, l, r, i, upto).len() == upto,
        weights_row(f, l, r, i, upto)[j] == weight_at(f, l, r, i, j),
    decreases upto,
{
    lemma_weights_row_len(f, l, r, i, upto);
    if j < upto - 1 {
        lemma_weights_row_cell(f, l, r, i, (upto - 1) as nat, j);
    }
}

/// A row of weights is as long as was asked for.
proof fn lemma_weights_row_len(f: Seq<NodeView>, l: usize, r: usize, i: int, upto: nat)
    ensures
        weights_row(f, l, r, i, upto).len() == upto,
    decreases upto,
{
    if upto > 0 {
        lemma_weights_row_len(f, l, r, i, (upto - 1) as nat);
    }
}

/// The value of an assignment of the children is its weight on the matrix.
proof fn lemma_assigned_is_weight(
    f: Seq<NodeView>,
    l: usize,
    r: usize,
    size: nat,
    columns: Seq<usize>,
    upto: nat,
)
    requires
        upto <= size,
        columns.len() == size,
        forall|i: int| 0 <= i < size ==> #[trigger] columns[i] < size,
    ensures
        assigned_sum(f, l, r, columns, upto) == assignment_weight(
            weights_rows(f, l, r, size, size),
            columns,
            upto,
        ),
    decreases upto,
{
    if upto > 0 {
        lemma_assigned_is_weight(f, l, r, size, columns, (upto - 1) as nat);
        lemma_weights_cell(f, l, r, size, size, upto - 1, columns[upto - 1] as int);
        crate::matching::lemma_assigned_step(f, l, r, columns, upto);
    }
}

} // verus!

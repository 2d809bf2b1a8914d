use vstd::prelude::*;
use crate::forest::{lemma_child_before, wf, Forest};
use crate::matching::matches::{node_matches, Matches};
use crate::matching::matching_entry::MatchingEntry;
use crate::matching::matchings::{level, lemma_level_extended, Matchings};
use crate::matching::ordered::{
    admissible, lemma_admissible_child, lemma_prefix_span, lemma_product_fits, lemma_product_mono,
    lemma_score_in_within, lemma_scores_within_extended, lemma_span, prefix_span, scores_within,
};
use crate::matching::{
    bonus, child_matchings, child_score, label_row, label_row_sum, label_rows, label_rows_sum,
    root_pair, same_label, span, unique_label_matchings,
};

verus! {

/// The bound of a sum of scores grows by the bound of the score added.
pub(crate) proof fn lemma_sum_step(sum: nat, s: nat, a: nat, x: nat, big: nat, b0: nat, y: nat, b1: nat)
    requires
        sum <= a * big + x * b0,
        s <= x * y,
        b0 + y <= b1,
    ensures
        sum + s <= a * big + x * b1,
{
    assert(x * b0 + x * y == x * (b0 + y)) by (nonlinear_arith);
    lemma_product_mono(x, x, b0 + y, b1);
}

/// At the end of a row, the bound of the sum is the bound of the rows.
pub(crate) proof fn lemma_row_done(sum: nat, a0: nat, x: nat, a1: nat, big: nat, b: nat)
    requires
        sum <= a0 * big + x * b,
        b <= big,
        a0 + x <= a1,
    ensures
        sum <= a1 * big,
{
    lemma_product_mono(x, x, b, big);
    assert(a0 * big + x * big == (a0 + x) * big) by (nonlinear_arith);
    lemma_product_mono(a0 + x, a1, big, big);
}

/// Matches two interior nodes by pairing the children that carry the same
/// label: every such pair is accepted, with what was matched below it. Nodes
/// of another shape get no matchings.
pub fn calculate_matchings(forest: &Forest, left: usize, right: usize) -> (matchings: Matchings)
    requires
        wf(forest@),
        left < forest@.len(),
        right < forest@.len(),
    ensures
        matchings@ == unique_label_matchings(forest@, left, right),
        admissible(matchings@, forest@, left as int, right as int),
        !forest@[left as int].is_terminal && !forest@[right as int].is_terminal
            ==> crate::matching::root_entry_is(
            matchings@,
            forest@,
            left,
            right,
            bonus(node_matches(forest@[left as int], forest@[right as int])),
        ),
        !forest@[left as int].is_terminal && !forest@[right as int].is_terminal ==> crate::matching::score_in(
            matchings@,
            left,
            right,
        ) == crate::matching::label_total(forest@, left, right),
        !forest@[left as int].is_terminal && !forest@[right as int].is_terminal
            ==> crate::matching::label_total(forest@, left, right) <= u64::MAX,
    decreases left, 1nat,
{
    let left_node = forest.node(left);
    let right_node = forest.node(right);
    if left_node.is_terminal() || right_node.is_terminal() {
        return Matchings::empty();
    }
    let children_left = left_node.children();
    let children_right = right_node.children();
    let m = children_left.len();
    let n = children_right.len();
    let ghost f = forest@;
    let ghost big = (span(f, right as int) - 1) as nat;
    let ghost limit = span(f, left as int) * span(f, right as int);
    let mut sum: u64 = 0;
    let mut result = Matchings::empty();
    let mut i: usize = 0;
    proof {
        lemma_span(f, left as int);
        lemma_span(f, right as int);
        lemma_product_fits(span(f, left as int), span(f, right as int));
        assert(level(result@, f));
    }
    while i < m
        invariant
            i <= m,
            f == forest@,
            wf(f),
            left < f.len(),
            right < f.len(),
            !f[left as int].is_terminal,
            !f[right as int].is_terminal,
            children_left@ == f[left as int].children,
            children_right@ == f[right as int].children,
            m == children_left@.len(),
            n == children_right@.len(),
            big == span(f, right as int) - 1,
            limit == span(f, left as int) * span(f, right as int),
            1 <= span(f, left as int) <= u32::MAX,
            1 <= span(f, right as int) <= u32::MAX,
            result@ == label_rows(f, left, right, i as nat),
            sum == label_rows_sum(f, left, right, i as nat),
            sum <= prefix_span(f, left as int, i as int) * big,
            scores_within(result@, limit),
            f[left as int].depth == f[right as int].depth ==> level(result@, f),
        decreases m - i,
    {
        let child_left = children_left[i];
        let ghost x = span(f, child_left as int);
        let ghost a0 = prefix_span(f, left as int, i as int);
        let ghost row_start = result@;
        let ghost sum_start = sum;
        proof {
            lemma_child_before(f, left as int, i as int);
            lemma_prefix_span(f, left as int, i as int);
            assert(result@ + label_row(f, left, right, i as int, 0) =~= result@);
        }
        let mut j: usize = 0;
        while j < n
            invariant
                j <= n,
                i < m,
                f == forest@,
                wf(f),
                left < f.len(),
                right < f.len(),
                !f[left as int].is_terminal,
                !f[right as int].is_terminal,
                children_left@ == f[left as int].children,
                children_right@ == f[right as int].children,
                m == children_left@.len(),
                n == children_right@.len(),
                child_left == children_left@[i as int],
                child_left < left,
                x == span(f, child_left as int),
                a0 == prefix_span(f, left as int, i as int),
                a0 + x <= prefix_span(f, left as int, i + 1),
                prefix_span(f, left as int, i + 1) + 1 <= span(f, left as int),
                big == span(f, right as int) - 1,
                limit == span(f, left as int) * span(f, right as int),
                1 <= span(f, left as int) <= u32::MAX,
                1 <= span(f, right as int) <= u32::MAX,
                result@ == row_start + label_row(f, left, right, i as int, j as nat),
                sum == sum_start + label_row_sum(f, left, right, i as int, j as nat),
                sum <= a0 * big + x * prefix_span(f, right as int, j as int),
                scores_within(result@, limit),
                f[left as int].depth == f[right as int].depth ==> level(result@, f),
            decreases n - j,
        {
            let child_right = children_right[j];
            let ghost before = result@;
            proof {
                lemma_child_before(f, right as int, j as int);
                lemma_prefix_span(f, right as int, j as int);
                crate::matching::lemma_child_matchings(f, left, right, i as int, j as int);
                crate::matching::lemma_label_row_step(f, left, right, i as int, (j + 1) as nat);
                lemma_product_mono(
                    x,
                    x,
                    prefix_span(f, right as int, j as int),
                    prefix_span(f, right as int, j + 1),
                );
            }
            if forest.node(child_left).same_label(forest.node(child_right)) {
                let w = crate::matching::calculate_matchings(forest, child_left, child_right);
                proof {
                    assert(w@ == child_matchings(f, left, right, i as int, j as int));
                    lemma_score_in_within(
                        w@,
                        child_left,
                        child_right,
                        x * span(f, child_right as int),
                    );
                    lemma_admissible_child(w@, f, left as int, right as int, i as int, j as int);
                }
                let score = match w.get_matching_entry(child_left, child_right) {
                    Some(entry) => entry.score,
                    None => 0,
                };
                proof {
                    assert(score == child_score(f, left, right, i as int, j as int));
                    lemma_sum_step(
                        sum as nat,
                        score as nat,
                        a0,
                        x,
                        big,
                        prefix_span(f, right as int, j as int),
                        span(f, child_right as int),
                        prefix_span(f, right as int, j + 1),
                    );
                    lemma_row_done(
                        (sum + score) as nat,
                        a0,
                        x,
                        prefix_span(f, left as int, i + 1),
                        big,
                        prefix_span(f, right as int, j + 1),
                    );
                    lemma_product_mono(
                        prefix_span(f, left as int, i + 1),
                        (span(f, left as int) - 1) as nat,
                        big,
                        big,
                    );
                    lemma_product_fits(span(f, left as int), span(f, right as int));
                }
                sum = sum + score;
                result.extend(&w);
                proof {
                    lemma_scores_within_extended(before, w@, limit);
                    if f[left as int].depth == f[right as int].depth {
                        lemma_level_extended(before, w@, f);
                    }
                }
            }
            proof {
                assert(result@ =~= row_start + label_row(f, left, right, i as int, (j + 1) as nat));
            }
            j += 1;
        }
        proof {
            if n > 0 {
                lemma_prefix_span(f, right as int, n - 1);
            }
            lemma_row_done(
                sum as nat,
                a0,
                x,
                prefix_span(f, left as int, i + 1),
                big,
                prefix_span(f, right as int, n as int),
            );
            crate::matching::lemma_label_rows_step(f, left, right, (i + 1) as nat);
            assert(result@ =~= label_rows(f, left, right, (i + 1) as nat));
        }
        i += 1;
    }
    let matched = left_node.matches(right_node);
    proof {
        if m > 0 {
            lemma_prefix_span(f, left as int, m - 1);
        }
        lemma_product_mono(
            prefix_span(f, left as int, m as int),
            (span(f, left as int) - 1) as nat,
            big,
            big,
        );
        lemma_product_fits(span(f, left as int), span(f, right as int));
    }
    let score = if matched {
        sum + 1
    } else {
        sum
    };
    let entry = MatchingEntry::new(forest, left, right, score);
    let root = Matchings::from_single(left, right, entry);
    let ghost before = result@;
    result.extend(&root);
    proof {
        assert(root@[0] == root_pair(
            f,
            left,
            right,
            label_rows_sum(f, left, right, m as nat) + bonus(
                node_matches(f[left as int], f[right as int]),
            ),
        ));
        lemma_scores_within_extended(before, root@, limit);
        if f[left as int].depth == f[right as int].depth {
            assert(level(root@, f));
            lemma_level_extended(before, root@, f);
        }
        assert(result@.last() == root@[0]);
    }
    result
}

} // verus!

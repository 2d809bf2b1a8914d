use vstd::prelude::*;
use crate::forest::{lemma_child_before, wf, Forest, NodeView};
use crate::matching::matching_entry::MatchingEntry;
use crate::matching::matchings::{level, lemma_level_extended, MatchedPair, Matchings};
use crate::matching::{
    backtrack, bonus, child_matchings, child_score, direction, lcs, ordered_matchings, root_pair,
    score_in, span, Direction,
};

verus! {

/// No pair of `s` scores more than `bound`.
pub open spec fn scores_within(s: Seq<MatchedPair>, bound: nat) -> bool {
    forall|k: int| 0 <= k < s.len() ==> (#[trigger] s[k]).entry.score <= bound
}

/// What every result of the matcher for the nodes `l` and `r` meets: no score
/// is larger than the product of the sizes of the two subtrees, and where the
/// two nodes lie at the same depth, so do the nodes of every pair.
pub open spec fn admissible(s: Seq<MatchedPair>, f: Seq<NodeView>, l: int, r: int) -> bool {
    &&& scores_within(s, span(f, l) * span(f, r))
    &&& f[l].depth == f[r].depth ==> level(s, f)
}

/// The number of indices that the first `k` children of `p` take, with what
/// lies below them.
pub open spec fn prefix_span(f: Seq<NodeView>, p: int, k: int) -> nat {
    if k <= 0 {
        0
    } else {
        (f[p].children[k - 1] + 1 - f[p].first) as nat
    }
}

/// The subtree of a child lies between the children before it and the end
/// of what lies below its parent.
pub(crate) proof fn lemma_prefix_span(f: Seq<NodeView>, p: int, k: int)
    requires
        wf(f),
        0 <= p < f.len(),
        0 <= k < f[p].children.len(),
    ensures
        prefix_span(f, p, k) + span(f, f[p].children[k] as int) <= prefix_span(f, p, k + 1),
        prefix_span(f, p, k + 1) + 1 <= span(f, p),
        span(f, f[p].children[k] as int) >= 1,
{
    lemma_child_before(f, p, k);
    if k > 0 {
        lemma_child_before(f, p, k - 1);
    }
}

/// A subtree takes at least one index and no more than the arena holds.
pub(crate) proof fn lemma_span(f: Seq<NodeView>, p: int)
    requires
        wf(f),
        0 <= p < f.len(),
    ensures
        1 <= span(f, p) <= u32::MAX,
        f[p].children.len() < u32::MAX,
{
    reveal(wf);
    assert(crate::forest::node_wf(f, p));
}

/// A product of sizes grows at least by the product of what is added to
/// its factors.
pub(crate) proof fn lemma_product_step(
    m: nat,
    s: nat,
    a0: nat,
    x: nat,
    a1: nat,
    b0: nat,
    y: nat,
    b1: nat,
)
    requires
        m <= a0 * b0,
        s <= x * y,
        a0 + x <= a1,
        b0 + y <= b1,
    ensures
        m + s <= a1 * b1,
{
    assert((a0 + x) * (b0 + y) == a0 * b0 + a0 * y + x * b0 + x * y) by (nonlinear_arith);
    assert(a0 * y >= 0 && x * b0 >= 0) by (nonlinear_arith);
    lemma_product_mono(a0 + x, a1, b0 + y, b1);
}

/// A product of natural numbers grows with its factors.
pub(crate) proof fn lemma_product_mono(a0: nat, a1: nat, b0: nat, b1: nat)
    requires
        a0 <= a1,
        b0 <= b1,
    ensures
        a0 * b0 <= a1 * b1,
{
    assert(a0 * b0 <= a1 * b1) by (nonlinear_arith)
        requires
            a0 <= a1,
            b0 <= b1,
    ;
}

/// The product of the sizes of two subtrees fits into a score.
pub(crate) proof fn lemma_product_fits(a: nat, b: nat)
    requires
        1 <= a <= u32::MAX,
        1 <= b <= u32::MAX,
    ensures
        a * b <= u64::MAX,
        (a - 1) * (b - 1) + 1 <= a * b,
{
    lemma_product_mono(a, u32::MAX as nat, b, u32::MAX as nat);
    assert((a - 1) * (b - 1) + 1 <= a * b) by (nonlinear_arith)
        requires
            1 <= a,
            1 <= b,
    ;
}

/// A found score is the score of some pair.
pub(crate) proof fn lemma_score_in_within(s: Seq<MatchedPair>, a: usize, b: usize, bound: nat)
    requires
        scores_within(s, bound),
    ensures
        score_in(s, a, b) <= bound,
    decreases s.len(),
{
    if s.len() > 0 {
        assert(s.last() == s[s.len() - 1]);
        assert forall|k: int| 0 <= k < s.drop_last().len() implies (#[trigger] s.drop_last()[k]).entry.score
            <= bound by {
            assert(s.drop_last()[k] == s[k]);
        }
        lemma_score_in_within(s.drop_last(), a, b, bound);
    }
}

/// A bound on the scores of two sets holds for the two joined.
pub(crate) proof fn lemma_scores_within_extended(s: Seq<MatchedPair>, t: Seq<MatchedPair>, bound: nat)
    requires
        scores_within(s, bound),
        scores_within(t, bound),
    ensures
        scores_within(s + t, bound),
{
    assert forall|k: int| 0 <= k < (s + t).len() implies (#[trigger] (s + t)[k]).entry.score
        <= bound by {
        if k < s.len() {
            assert((s + t)[k] == s[k]);
        } else {
            assert((s + t)[k] == t[k - s.len()]);
        }
    }
}

/// A bound on the scores holds for every larger bound.
pub(crate) proof fn lemma_scores_within_mono(s: Seq<MatchedPair>, small: nat, large: nat)
    requires
        scores_within(s, small),
        small <= large,
    ensures
        scores_within(s, large),
{
}

/// What is admissible for child `i` of `l` and child `j` of `r` can be
/// joined to what is admissible for `l` and `r`.
pub(crate) proof fn lemma_admissible_child(
    s: Seq<MatchedPair>,
    f: Seq<NodeView>,
    l: int,
    r: int,
    i: int,
    j: int,
)
    requires
        wf(f),
        0 <= l < f.len(),
        0 <= r < f.len(),
        0 <= i < f[l].children.len(),
        0 <= j < f[r].children.len(),
        admissible(s, f, f[l].children[i] as int, f[r].children[j] as int),
    ensures
        scores_within(s, span(f, l) * span(f, r)),
        f[l].depth == f[r].depth ==> level(s, f),
{
    lemma_child_before(f, l, i);
    lemma_child_before(f, r, j);
    lemma_prefix_span(f, l, i);
    lemma_prefix_span(f, r, j);
    let cl = f[l].children[i] as int;
    let cr = f[r].children[j] as int;
    lemma_product_mono(span(f, cl), span(f, l), span(f, cr), span(f, r));
    lemma_scores_within_mono(s, span(f, cl) * span(f, cr), span(f, l) * span(f, r));
}

/// The cells `0..upto` of row `i` of the alignment table.
#[verifier::opaque]
pub open spec fn row_ok(
    f: Seq<NodeView>,
    l: usize,
    r: usize,
    row: Seq<u64>,
    i: nat,
    upto: nat,
) -> bool {
    &&& row.len() == upto
    &&& forall|b: int|
        0 <= b < upto ==> {
            &&& #[trigger] row[b] == lcs(f, l, r, i, b as nat)
            &&& cell_bounded(f, l, r, i, b as nat)
        }
}

/// The value of the cell `(i, j)` is at most the product of the sizes of
/// what lies below the first `i` children of `l` and the first `j` of `r`.
pub open spec fn cell_bounded(f: Seq<NodeView>, l: usize, r: usize, i: nat, j: nat) -> bool {
    lcs(f, l, r, i, j) <= prefix_span(f, l as int, i as int) * prefix_span(f, r as int, j as int)
}

/// The bound of a cell follows from the bounds of the cells before it.
proof fn lemma_cell_bounded(f: Seq<NodeView>, l: usize, r: usize, i: nat, j: nat)
    requires
        wf(f),
        l < f.len(),
        r < f.len(),
        1 <= i <= f[l as int].children.len(),
        1 <= j <= f[r as int].children.len(),
        cell_bounded(f, l, r, (i - 1) as nat, (j - 1) as nat),
        cell_bounded(f, l, r, (i - 1) as nat, j),
        cell_bounded(f, l, r, i, (j - 1) as nat),
        scores_within(
            child_matchings(f, l, r, i - 1, j - 1),
            span(f, f[l as int].children[i - 1] as int) * span(
                f,
                f[r as int].children[j - 1] as int,
            ),
        ),
    ensures
        cell_bounded(f, l, r, i, j),
        lcs(f, l, r, (i - 1) as nat, (j - 1) as nat) + child_score(f, l, r, i - 1, j - 1)
            <= u64::MAX,
{
    let cl = f[l as int].children[i - 1];
    let cr = f[r as int].children[j - 1];
    lemma_child_before(f, l as int, i - 1);
    lemma_child_before(f, r as int, j - 1);
    crate::matching::lemma_child_matchings(f, l, r, i - 1, j - 1);
    crate::matching::lemma_lcs_step(f, l, r, i, j);
    lemma_score_in_within(
        child_matchings(f, l, r, i - 1, j - 1),
        cl,
        cr,
        span(f, cl as int) * span(f, cr as int),
    );
    lemma_prefix_span(f, l as int, i - 1);
    lemma_prefix_span(f, r as int, j - 1);
    lemma_span(f, l as int);
    lemma_span(f, r as int);
    let a0 = prefix_span(f, l as int, i - 1);
    let a1 = prefix_span(f, l as int, i as int);
    let b0 = prefix_span(f, r as int, j - 1);
    let b1 = prefix_span(f, r as int, j as int);
    lemma_product_step(
        lcs(f, l, r, (i - 1) as nat, (j - 1) as nat),
        child_score(f, l, r, i - 1, j - 1),
        a0,
        span(f, cl as int),
        a1,
        b0,
        span(f, cr as int),
        b1,
    );
    lemma_product_mono(a0, a1, b1, b1);
    lemma_product_mono(a1, a1, b0, b1);
    lemma_product_mono(a1, (span(f, l as int) - 1) as nat, b1, (span(f, r as int) - 1) as nat);
    lemma_product_fits(span(f, l as int), span(f, r as int));
}

/// The ways by which the cells `1..=upto` of row `i` got their values.
#[verifier::opaque]
pub open spec fn dir_row_ok(
    f: Seq<NodeView>,
    l: usize,
    r: usize,
    row: Seq<Direction>,
    i: nat,
    upto: nat,
) -> bool {
    &&& row.len() == upto
    &&& forall|b: int| 0 <= b < upto ==> #[trigger] row[b] == direction(f, l, r, i, (b + 1) as nat)
}

/// The matchings of child `i - 1` of `l` with the children `0..upto` of `r`.
#[verifier::opaque]
pub open spec fn sub_row_ok(
    f: Seq<NodeView>,
    l: usize,
    r: usize,
    row: Seq<Matchings>,
    i: nat,
    upto: nat,
) -> bool {
    &&& row.len() == upto
    &&& forall|b: int|
        0 <= b < upto ==> {
            &&& (#[trigger] row[b])@ == child_matchings(f, l, r, i - 1, b)
            &&& scores_within(row[b]@, span(f, l as int) * span(f, r as int))
            &&& f[l as int].depth == f[r as int].depth ==> level(row[b]@, f)
        }
}

/// What a cell of a row of the alignment table holds.
pub(crate) proof fn lemma_row_read(
    f: Seq<NodeView>,
    l: usize,
    r: usize,
    row: Seq<u64>,
    i: nat,
    upto: nat,
    b: int,
)
    requires
        row_ok(f, l, r, row, i, upto),
        0 <= b < upto,
    ensures
        row.len() == upto,
        row[b] == lcs(f, l, r, i, b as nat),
        cell_bounded(f, l, r, i, b as nat),
{
    reveal(row_ok);
}

/// A row of the alignment table grows by its next cell.
pub(crate) proof fn lemma_row_push(
    f: Seq<NodeView>,
    l: usize,
    r: usize,
    row: Seq<u64>,
    i: nat,
    upto: nat,
    v: u64,
)
    requires
        upto == 0 ==> row.len() == 0,
        upto > 0 ==> row_ok(f, l, r, row, i, upto),
        v == lcs(f, l, r, i, upto),
        cell_bounded(f, l, r, i, upto),
    ensures
        row_ok(f, l, r, row.push(v), i, upto + 1),
{
    reveal(row_ok);
    let next = row.push(v);
    assert forall|b: int| 0 <= b < upto + 1 implies {
        &&& #[trigger] next[b] == lcs(f, l, r, i, b as nat)
        &&& cell_bounded(f, l, r, i, b as nat)
    } by {
        if b < upto {
            assert(next[b] == row[b]);
        }
    }
}

/// What a row of ways holds.
pub(crate) proof fn lemma_dir_read(
    f: Seq<NodeView>,
    l: usize,
    r: usize,
    row: Seq<Direction>,
    i: nat,
    upto: nat,
    b: int,
)
    requires
        dir_row_ok(f, l, r, row, i, upto),
        0 <= b < upto,
    ensures
        row.len() == upto,
        row[b] == direction(f, l, r, i, (b + 1) as nat),
{
    reveal(dir_row_ok);
}

/// A row of ways grows by the way of its next cell.
pub(crate) proof fn lemma_dir_push(
    f: Seq<NodeView>,
    l: usize,
    r: usize,
    row: Seq<Direction>,
    i: nat,
    upto: nat,
    d: Direction,
)
    requires
        upto == 0 ==> row.len() == 0,
        upto > 0 ==> dir_row_ok(f, l, r, row, i, upto),
        d == direction(f, l, r, i, upto + 1),
    ensures
        dir_row_ok(f, l, r, row.push(d), i, upto + 1),
{
    reveal(dir_row_ok);
    let next = row.push(d);
    assert forall|b: int| 0 <= b < upto + 1 implies #[trigger] next[b] == direction(
        f,
        l,
        r,
        i,
        (b + 1) as nat,
    ) by {
        if b < upto {
            assert(next[b] == row[b]);
        }
    }
}

/// What a row of matchings of children holds.
pub(crate) proof fn lemma_sub_read(
    f: Seq<NodeView>,
    l: usize,
    r: usize,
    row: Seq<Matchings>,
    i: nat,
    upto: nat,
    b: int,
)
    requires
        sub_row_ok(f, l, r, row, i, upto),
        0 <= b < upto,
    ensures
        row.len() == upto,
        row[b]@ == child_matchings(f, l, r, i - 1, b),
        scores_within(row[b]@, span(f, l as int) * span(f, r as int)),
        f[l as int].depth == f[r as int].depth ==> level(row[b]@, f),
{
    reveal(sub_row_ok);
}

/// A row of matchings of children grows by the matchings of the next child.
pub(crate) proof fn lemma_sub_push(
    f: Seq<NodeView>,
    l: usize,
    r: usize,
    row: Seq<Matchings>,
    i: nat,
    upto: nat,
    w: Matchings,
)
    requires
        upto == 0 ==> row.len() == 0,
        upto > 0 ==> sub_row_ok(f, l, r, row, i, upto),
        w@ == child_matchings(f, l, r, i - 1, upto as int),
        scores_within(w@, span(f, l as int) * span(f, r as int)),
        f[l as int].depth == f[r as int].depth ==> level(w@, f),
    ensures
        sub_row_ok(f, l, r, row.push(w), i, upto + 1),
{
    reveal(sub_row_ok);
    let next = row.push(w);
    assert forall|b: int| 0 <= b < upto + 1 implies {
        &&& (#[trigger] next[b])@ == child_matchings(f, l, r, i - 1, b)
        &&& scores_within(next[b]@, span(f, l as int) * span(f, r as int))
        &&& f[l as int].depth == f[r as int].depth ==> level(next[b]@, f)
    } by {
        if b < upto {
            assert(next[b] == row[b]);
        }
    }
}

/// The first `rows` rows of the table of ways and of the table of matchings
/// of children, each `n` cells wide.
#[verifier::opaque]
pub open spec fn table_ok(
    f: Seq<NodeView>,
    l: usize,
    r: usize,
    dirs: Seq<Vec<Direction>>,
    subs: Seq<Vec<Matchings>>,
    rows: nat,
    n: nat,
) -> bool {
    &&& dirs.len() == rows
    &&& subs.len() == rows
    &&& forall|a: int|
        0 <= a < rows ==> dir_row_ok(f, l, r, (#[trigger] dirs[a])@, (a + 1) as nat, n)
    &&& forall|a: int|
        0 <= a < rows ==> sub_row_ok(f, l, r, (#[trigger] subs[a])@, (a + 1) as nat, n)
}

/// What the cell `(i, j)` of the two tables holds.
pub(crate) proof fn lemma_table_read(
    f: Seq<NodeView>,
    l: usize,
    r: usize,
    dirs: Seq<Vec<Direction>>,
    subs: Seq<Vec<Matchings>>,
    rows: nat,
    n: nat,
    i: int,
    j: int,
)
    requires
        table_ok(f, l, r, dirs, subs, rows, n),
        1 <= i <= rows,
        1 <= j <= n,
    ensures
        dirs.len() == rows,
        subs.len() == rows,
        dirs[i - 1]@.len() == n,
        subs[i - 1]@.len() == n,
        dirs[i - 1]@[j - 1] == direction(f, l, r, i as nat, j as nat),
        subs[i - 1]@[j - 1]@ == child_matchings(f, l, r, i - 1, j - 1),
        scores_within(subs[i - 1]@[j - 1]@, span(f, l as int) * span(f, r as int)),
        f[l as int].depth == f[r as int].depth ==> level(subs[i - 1]@[j - 1]@, f),
{
    reveal(table_ok);
    lemma_dir_read(f, l, r, dirs[i - 1]@, i as nat, n, j - 1);
    lemma_sub_read(f, l, r, subs[i - 1]@, i as nat, n, j - 1);
}

/// The two tables grow by a row.
pub(crate) proof fn lemma_table_push(
    f: Seq<NodeView>,
    l: usize,
    r: usize,
    dirs: Seq<Vec<Direction>>,
    subs: Seq<Vec<Matchings>>,
    rows: nat,
    n: nat,
    dir_row: Vec<Direction>,
    sub_row: Vec<Matchings>,
)
    requires
        rows == 0 ==> dirs.len() == 0 && subs.len() == 0,
        rows > 0 ==> table_ok(f, l, r, dirs, subs, rows, n),
        dir_row_ok(f, l, r, dir_row@, rows + 1, n),
        sub_row_ok(f, l, r, sub_row@, rows + 1, n),
    ensures
        table_ok(f, l, r, dirs.push(dir_row), subs.push(sub_row), rows + 1, n),
{
    reveal(table_ok);
    let dirs2 = dirs.push(dir_row);
    let subs2 = subs.push(sub_row);
    assert forall|a: int| 0 <= a < rows + 1 implies dir_row_ok(
        f,
        l,
        r,
        (#[trigger] dirs2[a])@,
        (a + 1) as nat,
        n,
    ) by {
        if a < rows {
            assert(dirs2[a] == dirs[a]);
        }
    }
    assert forall|a: int| 0 <= a < rows + 1 implies sub_row_ok(
        f,
        l,
        r,
        (#[trigger] subs2[a])@,
        (a + 1) as nat,
        n,
    ) by {
        if a < rows {
            assert(subs2[a] == subs[a]);
        }
    }
}

/// The tables without rows.
pub(crate) proof fn lemma_table_begin(f: Seq<NodeView>, l: usize, r: usize, n: nat)
    ensures
        table_ok(f, l, r, Seq::<Vec<Direction>>::empty(), Seq::<Vec<Matchings>>::empty(), 0, n),
{
    reveal(table_ok);
}

/// A row without cells.
pub(crate) proof fn lemma_rows_begin(f: Seq<NodeView>, l: usize, r: usize, i: nat)
    ensures
        dir_row_ok(f, l, r, Seq::<Direction>::empty(), i, 0),
        sub_row_ok(f, l, r, Seq::<Matchings>::empty(), i, 0),
        row_ok(f, l, r, Seq::<u64>::empty(), i, 0),
{
    reveal(row_ok);
    reveal(dir_row_ok);
    reveal(sub_row_ok);
}

/// The row of zeros with which the alignment table begins.
fn first_row(forest: &Forest, left: usize, right: usize, n: usize) -> (row: Vec<u64>)
    requires
        n < usize::MAX,
    ensures
        row_ok(forest@, left, right, row@, 0, (n + 1) as nat),
{
    let mut row: Vec<u64> = Vec::new();
    let mut b: usize = 0;
    proof {
        lemma_rows_begin(forest@, left, right, 0);
    }
    while b <= n
        invariant
            b <= n + 1,
            n < usize::MAX,
            row_ok(forest@, left, right, row@, 0, b as nat),
            b == 0 ==> row@.len() == 0,
        decreases n + 1 - b,
    {
        proof {
            assert(cell_bounded(forest@, left, right, 0, b as nat)) by (nonlinear_arith)
                requires
                    lcs(forest@, left, right, 0, b as nat) == 0,
                    prefix_span(forest@, left as int, 0) == 0,
            ;
            lemma_row_push(forest@, left, right, row@, 0, b as nat, 0);
        }
        row.push(0);
        b += 1;
    }
    row
}

/// Fills row `i` of the alignment table from the row before it.
fn fill_row(forest: &Forest, left: usize, right: usize, i: usize, prev: &Vec<u64>) -> (filled: (
    Vec<u64>,
    Vec<Direction>,
    Vec<Matchings>,
))
    requires
        wf(forest@),
        left < forest@.len(),
        right < forest@.len(),
        !forest@[left as int].is_terminal,
        !forest@[right as int].is_terminal,
        1 <= i <= forest@[left as int].children.len(),
        row_ok(
            forest@,
            left,
            right,
            prev@,
            (i - 1) as nat,
            (forest@[right as int].children.len() + 1) as nat,
        ),
    ensures
        row_ok(
            forest@,
            left,
            right,
            filled.0@,
            i as nat,
            (forest@[right as int].children.len() + 1) as nat,
        ),
        dir_row_ok(forest@, left, right, filled.1@, i as nat, forest@[right as int].children.len()),
        sub_row_ok(forest@, left, right, filled.2@, i as nat, forest@[right as int].children.len()),
    decreases left, 1nat,
{
    let children_left = forest.node(left).children();
    let children_right = forest.node(right).children();
    let n = children_right.len();
    let child_left = children_left[i - 1];
    let mut row: Vec<u64> = Vec::new();
    let mut dirs: Vec<Direction> = Vec::new();
    let mut subs: Vec<Matchings> = Vec::new();
    let ghost f = forest@;
    proof {
        lemma_child_before(f, left as int, i - 1);
        lemma_span(f, right as int);
        lemma_rows_begin(f, left, right, i as nat);
        assert(cell_bounded(f, left, right, i as nat, 0)) by (nonlinear_arith)
            requires
                lcs(f, left, right, i as nat, 0) == 0,
                prefix_span(f, right as int, 0) == 0,
        ;
        lemma_row_push(f, left, right, row@, i as nat, 0, 0);
    }
    row.push(0);
    let mut j: usize = 1;
    while j <= n
        invariant
            1 <= j <= n + 1,
            f == forest@,
            wf(f),
            left < f.len(),
            right < f.len(),
            !f[left as int].is_terminal,
            !f[right as int].is_terminal,
            1 <= i <= f[left as int].children.len(),
            children_left@ == f[left as int].children,
            children_right@ == f[right as int].children,
            n == children_right@.len(),
            n < u32::MAX,
            child_left == children_left@[i - 1],
            child_left < left,
            row_ok(f, left, right, prev@, (i - 1) as nat, (n + 1) as nat),
            row_ok(f, left, right, row@, i as nat, j as nat),
            dir_row_ok(f, left, right, dirs@, i as nat, (j - 1) as nat),
            sub_row_ok(f, left, right, subs@, i as nat, (j - 1) as nat),
            j == 1 ==> dirs@.len() == 0 && subs@.len() == 0,
        decreases n + 1 - j,
    {
        let child_right = children_right[j - 1];
        proof {
            lemma_child_before(f, right as int, j - 1);
            lemma_row_read(f, left, right, prev@, (i - 1) as nat, (n + 1) as nat, j - 1);
            lemma_row_read(f, left, right, prev@, (i - 1) as nat, (n + 1) as nat, j as int);
            lemma_row_read(f, left, right, row@, i as nat, j as nat, j - 1);
        }
        let w = crate::matching::calculate_matchings(forest, child_left, child_right);
        let s = match w.get_matching_entry(child_left, child_right) {
            Some(e) => e.score,
            None => 0,
        };
        let left_value = row[j - 1];
        let top_value = prev[j];
        let corner = prev[j - 1];
        proof {
            crate::matching::lemma_child_matchings(f, left, right, i - 1, j - 1);
            crate::matching::lemma_lcs_step(f, left, right, i as nat, j as nat);
            lemma_cell_bounded(f, left, right, i as nat, j as nat);
            lemma_admissible_child(w@, f, left as int, right as int, i - 1, j - 1);
        }
        let diag_value = corner + s;
        let (value, way) = if left_value >= top_value && left_value >= diag_value {
            (left_value, Direction::Left)
        } else if top_value >= diag_value {
            (top_value, Direction::Top)
        } else {
            (diag_value, Direction::Diag)
        };
        proof {
            lemma_row_push(f, left, right, row@, i as nat, j as nat, value);
            lemma_dir_push(f, left, right, dirs@, i as nat, (j - 1) as nat, way);
            lemma_sub_push(f, left, right, subs@, i as nat, (j - 1) as nat, w);
        }
        row.push(value);
        dirs.push(way);
        subs.push(w);
        j += 1;
    }
    (row, dirs, subs)
}

/// Walks back through the alignment table from the cell `(m, n)` and records
/// the matchings of the children that the way pairs.
fn walk_back(
    forest: &Forest,
    left: usize,
    right: usize,
    dirs: &Vec<Vec<Direction>>,
    subs: &Vec<Vec<Matchings>>,
    columns: usize,
    matchings: &mut Matchings,
)
    requires
        left < forest@.len(),
        right < forest@.len(),
        columns == forest@[right as int].children.len(),
        table_ok(
            forest@,
            left,
            right,
            dirs@,
            subs@,
            forest@[left as int].children.len(),
            forest@[right as int].children.len(),
        ),
        scores_within(old(matchings)@, span(forest@, left as int) * span(forest@, right as int)),
        forest@[left as int].depth == forest@[right as int].depth ==> level(
            old(matchings)@,
            forest@,
        ),
    ensures
        final(matchings)@ == old(matchings)@ + backtrack(
            forest@,
            left,
            right,
            forest@[left as int].children.len(),
            forest@[right as int].children.len(),
        ),
        scores_within(final(matchings)@, span(forest@, left as int) * span(forest@, right as int)),
        forest@[left as int].depth == forest@[right as int].depth ==> level(
            final(matchings)@,
            forest@,
        ),
{
    let ghost f = forest@;
    let ghost m = f[left as int].children.len();
    let ghost n = f[right as int].children.len();
    proof {
        reveal(table_ok);
    }
    let mut i: usize = dirs.len();
    let mut j: usize = columns;
    proof {
        assert(matchings@ + backtrack(f, left, right, i as nat, j as nat) =~= old(matchings)@
            + backtrack(f, left, right, m, n));
    }
    while i >= 1 && j >= 1
        invariant
            f == forest@,
            m == f[left as int].children.len(),
            n == f[right as int].children.len(),
            left < f.len(),
            right < f.len(),
            i <= m,
            j <= n,
            table_ok(f, left, right, dirs@, subs@, m, n),
            matchings@ + backtrack(f, left, right, i as nat, j as nat) == old(matchings)@
                + backtrack(f, left, right, m, n),
            scores_within(matchings@, span(f, left as int) * span(f, right as int)),
            f[left as int].depth == f[right as int].depth ==> level(matchings@, f),
        decreases i + j,
    {
        proof {
            lemma_table_read(f, left, right, dirs@, subs@, m, n, i as int, j as int);
        }
        let ghost before = matchings@;
        let way = dirs[i - 1][j - 1];
        proof {
            assert(way == direction(f, left, right, i as nat, j as nat));
            crate::matching::lemma_backtrack_step(f, left, right, i as nat, j as nat);
        }
        match way {
            Direction::Top => {
                assert(backtrack(f, left, right, i as nat, j as nat) == backtrack(
                    f,
                    left,
                    right,
                    (i - 1) as nat,
                    j as nat,
                ));
                i -= 1;
            },
            Direction::Left => {
                assert(backtrack(f, left, right, i as nat, j as nat) == backtrack(
                    f,
                    left,
                    right,
                    i as nat,
                    (j - 1) as nat,
                ));
                j -= 1;
            },
            Direction::Diag => {
                matchings.extend(&subs[i - 1][j - 1]);
                proof {
                    let w = subs@[i - 1]@[j - 1]@;
                    assert(w == child_matchings(f, left, right, i - 1, j - 1));
                    assert(backtrack(f, left, right, i as nat, j as nat) == w + backtrack(
                        f,
                        left,
                        right,
                        (i - 1) as nat,
                        (j - 1) as nat,
                    ));
                    lemma_scores_within_extended(
                        before,
                        w,
                        span(f, left as int) * span(f, right as int),
                    );
                    if f[left as int].depth == f[right as int].depth {
                        lemma_level_extended(before, w, f);
                    }
                    assert((before + w) + backtrack(
                        f,
                        left,
                        right,
                        (i - 1) as nat,
                        (j - 1) as nat,
                    ) =~= before + backtrack(f, left, right, i as nat, j as nat));
                }
                i -= 1;
                j -= 1;
            },
        }
    }
    proof {
        assert(backtrack(f, left, right, i as nat, j as nat) =~= Seq::<MatchedPair>::empty());
        assert(matchings@ + Seq::<MatchedPair>::empty() =~= matchings@);
    }
}

/// Matches two interior nodes by the best alignment, in order, of their
/// children. Nodes of another shape get no matchings.
pub fn calculate_matchings(forest: &Forest, left: usize, right: usize) -> (matchings: Matchings)
    requires
        wf(forest@),
        left < forest@.len(),
        right < forest@.len(),
    ensures
        matchings@ == ordered_matchings(forest@, left, right),
        admissible(matchings@, forest@, left as int, right as int),
        !forest@[left as int].is_terminal && !forest@[right as int].is_terminal
            ==> crate::matching::root_entry_is(
            matchings@,
            forest@,
            left,
            right,
            bonus(forest@[left as int].kind == forest@[right as int].kind),
        ),
        !forest@[left as int].is_terminal && !forest@[right as int].is_terminal ==> score_in(
            matchings@,
            left,
            right,
        ) == crate::matching::ordered_total(forest@, left, right)
            && crate::matching::ordered_total(forest@, left, right) <= u64::MAX,
    decreases left, 2nat,
{
    let left_node = forest.node(left);
    let right_node = forest.node(right);
    if left_node.is_terminal() || right_node.is_terminal() {
        return Matchings::empty();
    }
    let m = left_node.children().len();
    let n = right_node.children().len();
    let ghost f = forest@;
    proof {
        lemma_span(f, left as int);
        lemma_span(f, right as int);
    }
    let mut prev = first_row(forest, left, right, n);
    let mut dirs: Vec<Vec<Direction>> = Vec::new();
    let mut subs: Vec<Vec<Matchings>> = Vec::new();
    let mut i: usize = 1;
    proof {
        lemma_table_begin(f, left, right, n as nat);
    }
    while i <= m
        invariant
            1 <= i <= m + 1,
            f == forest@,
            wf(f),
            left < f.len(),
            right < f.len(),
            !f[left as int].is_terminal,
            !f[right as int].is_terminal,
            m == f[left as int].children.len(),
            n == f[right as int].children.len(),
            m < u32::MAX,
            n < u32::MAX,
            row_ok(f, left, right, prev@, (i - 1) as nat, (n + 1) as nat),
            table_ok(f, left, right, dirs@, subs@, (i - 1) as nat, n as nat),
            i == 1 ==> dirs@.len() == 0 && subs@.len() == 0,
        decreases m + 1 - i,
    {
        let (row, dir_row, sub_row) = fill_row(forest, left, right, i, &prev);
        proof {
            lemma_table_push(
                f,
                left,
                right,
                dirs@,
                subs@,
                (i - 1) as nat,
                n as nat,
                dir_row,
                sub_row,
            );
        }
        prev = row;
        dirs.push(dir_row);
        subs.push(sub_row);
        i += 1;
    }
    proof {
        lemma_row_read(f, left, right, prev@, m as nat, (n + 1) as nat, n as int);
    }
    let total = prev[n];
    let same_kind = left_node.kind == right_node.kind;
    proof {
        lemma_span(f, left as int);
        lemma_span(f, right as int);
        if m > 0 {
            lemma_prefix_span(f, left as int, m - 1);
        }
        if n > 0 {
            lemma_prefix_span(f, right as int, n - 1);
        }
        assert(cell_bounded(f, left, right, m as nat, n as nat));
        lemma_product_mono(
            prefix_span(f, left as int, m as int),
            (span(f, left as int) - 1) as nat,
            prefix_span(f, right as int, n as int),
            (span(f, right as int) - 1) as nat,
        );
        lemma_product_fits(span(f, left as int), span(f, right as int));
    }
    let score = if same_kind {
        total + 1
    } else {
        total
    };
    let entry = MatchingEntry::new(forest, left, right, score);
    let root = Matchings::from_single(left, right, entry);
    let mut matchings = Matchings::empty();
    proof {
        assert(level(matchings@, f));
    }
    walk_back(forest, left, right, &dirs, &subs, n, &mut matchings);
    let ghost below = matchings@;
    matchings.extend(&root);
    proof {
        assert(root@[0] == root_pair(
            f,
            left,
            right,
            lcs(f, left, right, m as nat, n as nat) + bonus(f[left as int].kind == f[right as int].kind),
        ));
        assert(Seq::<MatchedPair>::empty() + backtrack(f, left, right, m as nat, n as nat)
            =~= backtrack(f, left, right, m as nat, n as nat));
        lemma_scores_within_extended(below, root@, span(f, left as int) * span(f, right as int));
        if f[left as int].depth == f[right as int].depth {
            assert(level(root@, f));
            lemma_level_extended(below, root@, f);
        }
        assert(matchings@.last() == root@[0]);
    }
    matchings
}

} // verus!

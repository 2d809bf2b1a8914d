use vstd::prelude::*;
use vstd::string::*;
use crate::forest::{lemma_child_before, wf, Forest};
use crate::matching::matching_entry::Matching;
use crate::matching::matchings::{lemma_level_partner, matching_for, Matchings};
use crate::merge::unordered_merge::first_pass_end;
use crate::merge::{
    deeper, first_stop, moved, processed, room, scenario_of, sound, step_for, Action, Advance,
    Scenario,
};

verus! {

/// The nodes of one region of a merge, side by side.
#[derive(Debug, Default, PartialEq, Eq)]
pub struct ChunkData {
    pub left_nodes: Vec<usize>,
    pub base_nodes: Vec<usize>,
    pub right_nodes: Vec<usize>,
}

/// One entry of the log of a merge.
#[derive(Debug, PartialEq, Eq)]
pub enum MergeChunk {
    /// A run of children that were merged with their partners.
    Stable(ChunkData),
    /// A run of children for which a decision had to be made.
    Unstable(ChunkData),
    /// The merge of a node of the given kind, whose children may stand in
    /// any order, begins.
    UnorderedContextStart { node_kind: String },
    /// The merge of a node of the given kind, whose children may stand in
    /// any order, ends.
    UnorderedContextEnd { node_kind: String },
}

/// The log of a merge and the two regions that are being gathered.
#[derive(Debug, Default, PartialEq, Eq)]
pub struct LogState {
    pub log: Vec<MergeChunk>,
    pub current_stable: ChunkData,
    pub current_unstable: ChunkData,
}

/// A `ChunkData` as a mathematical value.
pub struct Chunk {
    pub left_nodes: Seq<usize>,
    pub base_nodes: Seq<usize>,
    pub right_nodes: Seq<usize>,
}

/// A `MergeChunk` as a mathematical value.
pub enum ChunkEntry {
    Stable(Chunk),
    Unstable(Chunk),
    UnorderedContextStart { node_kind: Seq<char> },
    UnorderedContextEnd { node_kind: Seq<char> },
}

/// A `LogState` as a mathematical value.
pub struct Log {
    pub log: Seq<ChunkEntry>,
    pub current_stable: Chunk,
    pub current_unstable: Chunk,
}

impl View for ChunkData {
    type V = Chunk;

    open spec fn view(&self) -> Chunk {
        Chunk {
            left_nodes: self.left_nodes@,
            base_nodes: self.base_nodes@,
            right_nodes: self.right_nodes@,
        }
    }
}

impl View for MergeChunk {
    type V = ChunkEntry;

    open spec fn view(&self) -> ChunkEntry {
        match self {
            MergeChunk::Stable(data) => ChunkEntry::Stable(data@),
            MergeChunk::Unstable(data) => ChunkEntry::Unstable(data@),
            MergeChunk::UnorderedContextStart { node_kind } => ChunkEntry::UnorderedContextStart {
                node_kind: node_kind@,
            },
            MergeChunk::UnorderedContextEnd { node_kind } => ChunkEntry::UnorderedContextEnd {
                node_kind: node_kind@,
            },
        }
    }
}

impl View for LogState {
    type V = Log;

    open spec fn view(&self) -> Log {
        Log {
            log: self.log@.map_values(|chunk: MergeChunk| chunk@),
            current_stable: self.current_stable@,
            current_unstable: self.current_unstable@,
        }
    }
}

/// The region without nodes.
pub open spec fn no_nodes() -> Chunk {
    Chunk { left_nodes: Seq::empty(), base_nodes: Seq::empty(), right_nodes: Seq::empty() }
}

/// The region holds no node.
pub open spec fn holds_nothing(chunk: Chunk) -> bool {
    chunk.left_nodes.len() == 0 && chunk.base_nodes.len() == 0 && chunk.right_nodes.len() == 0
}

/// The sequence `nodes`, with `node` behind it where one is given.
pub open spec fn with_node(nodes: Seq<usize>, node: Option<usize>) -> Seq<usize> {
    match node {
        Some(id) => nodes.push(id),
        None => nodes,
    }
}

/// The region `chunk` grown by the nodes given.
pub open spec fn grown(
    chunk: Chunk,
    left: Option<usize>,
    base: Option<usize>,
    right: Option<usize>,
) -> Chunk {
    Chunk {
        left_nodes: with_node(chunk.left_nodes, left),
        base_nodes: with_node(chunk.base_nodes, base),
        right_nodes: with_node(chunk.right_nodes, right),
    }
}

/// The log after the stable region that is being gathered was closed: where
/// it holds a node, it goes to the log and a new one begins.
pub open spec fn stable_closed(state: Log) -> Log {
    if holds_nothing(state.current_stable) {
        state
    } else {
        Log {
            log: state.log.push(ChunkEntry::Stable(state.current_stable)),
            current_stable: no_nodes(),
            current_unstable: state.current_unstable,
        }
    }
}

/// The log after the unstable region that is being gathered was closed.
pub open spec fn unstable_closed(state: Log) -> Log {
    if holds_nothing(state.current_unstable) {
        state
    } else {
        Log {
            log: state.log.push(ChunkEntry::Unstable(state.current_unstable)),
            current_stable: state.current_stable,
            current_unstable: no_nodes(),
        }
    }
}

/// What one step of a merge adds to the log: nodes of a stable or of an
/// unstable region.
pub struct Record {
    pub stable: bool,
    pub left: Option<usize>,
    pub base: Option<usize>,
    pub right: Option<usize>,
}

/// The log after a record: a stable record closes the unstable region and
/// grows the stable one, an unstable record the other way round.
pub open spec fn recorded(state: Log, record: Record) -> Log {
    if record.stable {
        let closed = unstable_closed(state);
        Log {
            log: closed.log,
            current_stable: grown(closed.current_stable, record.left, record.base, record.right),
            current_unstable: closed.current_unstable,
        }
    } else {
        let closed = stable_closed(state);
        Log {
            log: closed.log,
            current_stable: closed.current_stable,
            current_unstable: grown(
                closed.current_unstable,
                record.left,
                record.base,
                record.right,
            ),
        }
    }
}

/// The log at the end of a merge: both regions are closed, the stable one
/// first.
pub open spec fn finished(state: Log) -> Log {
    unstable_closed(stable_closed(state))
}

/// What a step of an ordered merge on the children `cl` and `cr` adds to the
/// log, if anything. Children that are merged with each other form a stable
/// region, with the base node over which they are merged where they have one;
/// every other step adds the child or children that it deals with to an
/// unstable region.
pub open spec fn record_for(
    bidir: bool,
    lr_l: Option<Matching>,
    bl: Option<Matching>,
    lr_r: Option<Matching>,
    br: Option<Matching>,
    cl: usize,
    cr: usize,
) -> Option<Record> {
    match (bidir, lr_l, bl, lr_r, br) {
        (true, Some(_), Some(b), Some(_), _) => Some(
            Record { stable: true, left: Some(cl), base: Some(b.matching_node), right: Some(cr) },
        ),
        (true, Some(_), None, Some(_), None) => Some(
            Record { stable: true, left: Some(cl), base: None, right: Some(cr) },
        ),
        (true, Some(_), None, Some(_), Some(b)) => Some(
            Record { stable: true, left: Some(cl), base: Some(b.matching_node), right: Some(cr) },
        ),
        (false, Some(_), _, None, _) => Some(
            Record { stable: false, left: None, base: None, right: Some(cr) },
        ),
        (false, None, _, Some(_), _) => Some(
            Record { stable: false, left: Some(cl), base: None, right: None },
        ),
        (false, None, Some(b), None, Some(_)) => Some(
            Record { stable: false, left: Some(cl), base: Some(b.matching_node), right: Some(cr) },
        ),
        (false, None, Some(_), None, None) => Some(
            Record { stable: false, left: Some(cl), base: None, right: None },
        ),
        (false, None, None, None, _) => Some(
            Record { stable: false, left: Some(cl), base: None, right: Some(cr) },
        ),
        _ => None,
    }
}

/// The log after what a step adds to it.
pub open spec fn after_step(state: Log, record: Option<Record>) -> Log {
    match record {
        Some(r) => recorded(state, r),
        None => state,
    }
}

/// The log of an ordered merge of `l` and `r` from the cursors `i` and `j`
/// on, begun in `state`.
pub open spec fn ordered_log(s: Scenario, l: usize, r: usize, i: nat, j: nat, state: Log) -> Log
    decreases (s.f[l as int].children.len() - i) + (s.f[r as int].children.len() - j),
{
    if i >= s.f[l as int].children.len() || j >= s.f[r as int].children.len() {
        finished(state)
    } else {
        let cl = s.f[l as int].children[i as int];
        let cr = s.f[r as int].children[j as int];
        let lr_l = matching_for(s.left_right, cl);
        let lr_r = matching_for(s.left_right, cr);
        let bl = matching_for(s.base_left, cl);
        let br = matching_for(s.base_right, cr);
        let bidir = lr_l.is_some() && lr_r.is_some();
        let step = step_for(bidir, lr_l, bl, lr_r, br, cl);
        ordered_log(
            s,
            l,
            r,
            moved(i, step.advance, Advance::Left),
            moved(j, step.advance, Advance::Right),
            after_step(state, record_for(bidir, lr_l, bl, lr_r, br, cl, cr)),
        )
    }
}

/// What the first pass of an unordered merge adds to the log for the left
/// child `cl`: a child merged with its partner on the right is stable, a child
/// that only left has, or that right removed after left changed it, is not.
pub open spec fn first_record(s: Scenario, cl: usize) -> Option<Record> {
    match (matching_for(s.base_left, cl), matching_for(s.left_right, cl)) {
        (None, None) => Some(Record { stable: false, left: Some(cl), base: None, right: None }),
        (None, Some(in_right)) => Some(
            Record {
                stable: true,
                left: Some(cl),
                base: None,
                right: Some(in_right.matching_node),
            },
        ),
        (Some(in_base), None) => if in_base.is_perfect_match {
            None
        } else {
            Some(
                Record {
                    stable: false,
                    left: Some(cl),
                    base: Some(in_base.matching_node),
                    right: None,
                },
            )
        },
        (Some(in_base), Some(in_right)) => Some(
            Record {
                stable: true,
                left: Some(cl),
                base: Some(in_base.matching_node),
                right: Some(in_right.matching_node),
            },
        ),
    }
}

/// What the second pass of an unordered merge adds to the log for the right
/// child `cr`.
pub open spec fn second_record(s: Scenario, cr: usize) -> Option<Record> {
    match (matching_for(s.base_right, cr), matching_for(s.left_right, cr)) {
        (None, None) => Some(Record { stable: false, left: None, base: None, right: Some(cr) }),
        (Some(in_base), None) => if in_base.is_perfect_match {
            None
        } else {
            Some(
                Record {
                    stable: false,
                    left: None,
                    base: Some(in_base.matching_node),
                    right: Some(cr),
                },
            )
        },
        (_, Some(_)) => None,
    }
}

/// The log of the first pass from the child `i` of `l` on, up to `stop`.
pub open spec fn first_log(s: Scenario, l: usize, i: nat, stop: nat, state: Log) -> Log
    decreases stop - i,
{
    if i >= stop {
        state
    } else {
        first_log(
            s,
            l,
            i + 1,
            stop,
            after_step(state, first_record(s, s.f[l as int].children[i as int])),
        )
    }
}

/// The log of the second pass from the child `j` of `r` on.
pub open spec fn second_log(s: Scenario, r: usize, j: nat, done: Set<usize>, state: Log) -> Log
    decreases s.f[r as int].children.len() - j,
{
    if j >= s.f[r as int].children.len() {
        state
    } else {
        let cr = s.f[r as int].children[j as int];
        second_log(s, r, j + 1, done, if done.contains(cr) {
            state
        } else {
            after_step(state, second_record(s, cr))
        })
    }
}

/// The log of an unordered merge of `l` and `r`, begun in `state`: the mark
/// of its beginning, what the two passes add, both regions closed, and the
/// mark of its end.
pub open spec fn unordered_log(s: Scenario, l: usize, r: usize, state: Log) -> Log {
    let stop = first_stop(s.f, l, 0);
    let begun = Log {
        log: state.log.push(ChunkEntry::UnorderedContextStart { node_kind: s.f[l as int].kind }),
        current_stable: state.current_stable,
        current_unstable: state.current_unstable,
    };
    let passed = finished(
        second_log(s, r, 0, processed(s, l, stop), first_log(s, l, 0, stop, begun)),
    );
    Log {
        log: passed.log.push(ChunkEntry::UnorderedContextEnd { node_kind: s.f[l as int].kind }),
        current_stable: passed.current_stable,
        current_unstable: passed.current_unstable,
    }
}

impl ChunkData {
    /// Whether the region holds no node.
    pub fn is_empty(&self) -> (empty: bool)
        ensures
            empty == holds_nothing(self@),
    {
        self.left_nodes.len() == 0 && self.base_nodes.len() == 0 && self.right_nodes.len() == 0
    }

    /// The region without nodes.
    pub fn new() -> (chunk: ChunkData)
        ensures
            chunk@ == no_nodes(),
    {
        ChunkData { left_nodes: Vec::new(), base_nodes: Vec::new(), right_nodes: Vec::new() }
    }

    fn grow(&mut self, left: Option<usize>, base: Option<usize>, right: Option<usize>)
        ensures
            final(self)@ == grown(old(self)@, left, base, right),
    {
        if let Some(id) = left {
            self.left_nodes.push(id);
        }
        if let Some(id) = base {
            self.base_nodes.push(id);
        }
        if let Some(id) = right {
            self.right_nodes.push(id);
        }
    }
}

impl LogState {
    /// The empty log.
    pub fn new() -> (state: LogState)
        ensures
            state@ == (Log {
                log: Seq::empty(),
                current_stable: no_nodes(),
                current_unstable: no_nodes(),
            }),
    {
        let state = LogState {
            log: Vec::new(),
            current_stable: ChunkData::new(),
            current_unstable: ChunkData::new(),
        };
        assert(state@.log =~= Seq::empty());
        state
    }

    fn push_chunk(&mut self, chunk: MergeChunk)
        ensures
            final(self)@ == (Log {
                log: old(self)@.log.push(chunk@),
                current_stable: old(self)@.current_stable,
                current_unstable: old(self)@.current_unstable,
            }),
    {
        self.log.push(chunk);
        assert(self@.log =~= old(self)@.log.push(chunk@));
    }

    /// Closes the stable region that is being gathered.
    pub fn close_stable(&mut self)
        ensures
            final(self)@ == stable_closed(old(self)@),
    {
        if !self.current_stable.is_empty() {
            let mut region = ChunkData::new();
            std::mem::swap(&mut region, &mut self.current_stable);
            self.push_chunk(MergeChunk::Stable(region));
        }
    }

    /// Closes the unstable region that is being gathered.
    pub fn close_unstable(&mut self)
        ensures
            final(self)@ == unstable_closed(old(self)@),
    {
        if !self.current_unstable.is_empty() {
            let mut region = ChunkData::new();
            std::mem::swap(&mut region, &mut self.current_unstable);
            self.push_chunk(MergeChunk::Unstable(region));
        }
    }

    /// Adds nodes to the stable region, after closing the unstable one.
    pub fn record_stable(&mut self, left: Option<usize>, base: Option<usize>, right: Option<usize>)
        ensures
            final(self)@ == recorded(old(self)@, Record { stable: true, left, base, right }),
    {
        self.close_unstable();
        self.current_stable.grow(left, base, right);
    }

    /// Adds nodes to the unstable region, after closing the stable one.
    pub fn record_unstable(
        &mut self,
        left: Option<usize>,
        base: Option<usize>,
        right: Option<usize>,
    )
        ensures
            final(self)@ == recorded(old(self)@, Record { stable: false, left, base, right }),
    {
        self.close_stable();
        self.current_unstable.grow(left, base, right);
    }

    /// Closes both regions, the stable one first.
    pub fn finish(&mut self)
        ensures
            final(self)@ == finished(old(self)@),
    {
        self.close_stable();
        self.close_unstable();
    }

    /// Marks the beginning of the merge of a node whose children may stand
    /// in any order.
    pub fn enter_unordered(&mut self, node_kind: &String)
        ensures
            final(self)@ == (Log {
                log: old(self)@.log.push(
                    ChunkEntry::UnorderedContextStart { node_kind: node_kind@ },
                ),
                current_stable: old(self)@.current_stable,
                current_unstable: old(self)@.current_unstable,
            }),
    {
        self.push_chunk(MergeChunk::UnorderedContextStart { node_kind: node_kind.clone() });
    }

    /// Marks the end of the merge of a node whose children may stand in any
    /// order.
    pub fn leave_unordered(&mut self, node_kind: &String)
        ensures
            final(self)@ == (Log {
                log: old(self)@.log.push(ChunkEntry::UnorderedContextEnd { node_kind: node_kind@ }),
                current_stable: old(self)@.current_stable,
                current_unstable: old(self)@.current_unstable,
            }),
    {
        self.push_chunk(MergeChunk::UnorderedContextEnd { node_kind: node_kind.clone() });
    }

    fn apply(&mut self, record: Option<(bool, Option<usize>, Option<usize>, Option<usize>)>)
        ensures
            final(self)@ == after_step(
                old(self)@,
                match record {
                    Some(r) => Some(Record { stable: r.0, left: r.1, base: r.2, right: r.3 }),
                    None => None,
                },
            ),
    {
        match record {
            Some((true, left, base, right)) => self.record_stable(left, base, right),
            Some((false, left, base, right)) => self.record_unstable(left, base, right),
            None => {},
        }
    }
}

/// What a step of an ordered merge adds to the log.
pub fn record_of_step(
    bidir: bool,
    lr_l: Option<Matching>,
    bl: Option<Matching>,
    lr_r: Option<Matching>,
    br: Option<Matching>,
    cl: usize,
    cr: usize,
) -> (record: Option<(bool, Option<usize>, Option<usize>, Option<usize>)>)
    ensures
        (match record {
            Some(r) => Some(Record { stable: r.0, left: r.1, base: r.2, right: r.3 }),
            None => None,
        }) == record_for(bidir, lr_l, bl, lr_r, br, cl, cr),
{
    match (bidir, lr_l, bl, lr_r, br) {
        (true, Some(_), Some(b), Some(_), _) => Some(
            (true, Some(cl), Some(b.matching_node), Some(cr)),
        ),
        (true, Some(_), None, Some(_), None) => Some((true, Some(cl), None, Some(cr))),
        (true, Some(_), None, Some(_), Some(b)) => Some(
            (true, Some(cl), Some(b.matching_node), Some(cr)),
        ),
        (false, Some(_), _, None, _) => Some((false, None, None, Some(cr))),
        (false, None, _, Some(_), _) => Some((false, Some(cl), None, None)),
        (false, None, Some(b), None, Some(_)) => Some(
            (false, Some(cl), Some(b.matching_node), Some(cr)),
        ),
        (false, None, Some(_), None, None) => Some((false, Some(cl), None, None)),
        (false, None, None, None, _) => Some((false, Some(cl), None, Some(cr))),
        _ => None,
    }
}

/// Adds to `log_state` the stable and unstable regions of the ordered merge
/// of the interior nodes `left` and `right`.
pub fn log_ordered_merge(
    forest: &Forest,
    left: usize,
    right: usize,
    base_left_matchings: &Matchings,
    base_right_matchings: &Matchings,
    left_right_matchings: &Matchings,
    log_state: &mut LogState,
)
    requires
        wf(forest@),
        left < forest@.len(),
        right < forest@.len(),
        !forest@[left as int].is_terminal,
        !forest@[right as int].is_terminal,
    ensures
        final(log_state)@ == ordered_log(
            crate::merge::scenario_of(
                forest,
                base_left_matchings,
                base_right_matchings,
                left_right_matchings,
            ),
            left,
            right,
            0,
            0,
            old(log_state)@,
        ),
{
    let ghost s = crate::merge::scenario_of(
        forest,
        base_left_matchings,
        base_right_matchings,
        left_right_matchings,
    );
    let children_left = forest.node(left).children();
    let children_right = forest.node(right).children();
    let m = children_left.len();
    let n = children_right.len();
    let mut i: usize = 0;
    let mut j: usize = 0;
    while i < m && j < n
        invariant
            i <= m,
            j <= n,
            s == crate::merge::scenario_of(
                forest,
                base_left_matchings,
                base_right_matchings,
                left_right_matchings,
            ),
            children_left@ == forest@[left as int].children,
            children_right@ == forest@[right as int].children,
            m == children_left@.len(),
            n == children_right@.len(),
            ordered_log(s, left, right, i as nat, j as nat, log_state@) == ordered_log(
                s,
                left,
                right,
                0,
                0,
                old(log_state)@,
            ),
        decreases (m - i) + (n - j),
    {
        let cur_left = children_left[i];
        let cur_right = children_right[j];
        let left_in_right = left_right_matchings.find_matching_for(cur_left);
        let right_in_left = left_right_matchings.find_matching_for(cur_right);
        let left_in_base = base_left_matchings.find_matching_for(cur_left);
        let right_in_base = base_right_matchings.find_matching_for(cur_right);
        let bidirectional = left_in_right.is_some() && right_in_left.is_some();
        let step = crate::merge::decide(
            bidirectional,
            left_in_right,
            left_in_base,
            right_in_left,
            right_in_base,
            cur_left,
        );
        log_state.apply(
            record_of_step(
                bidirectional,
                left_in_right,
                left_in_base,
                right_in_left,
                right_in_base,
                cur_left,
                cur_right,
            ),
        );
        match step.advance {
            Advance::Left => {
                i += 1;
            },
            Advance::Right => {
                j += 1;
            },
            Advance::Both => {
                i += 1;
                j += 1;
            },
        }
    }
    log_state.finish();
}

/// What the first pass of an unordered merge adds to the log for a child.
fn record_of_first(in_base: Option<Matching>, in_right: Option<Matching>, cl: usize) -> (record:
    Option<(bool, Option<usize>, Option<usize>, Option<usize>)>)
    ensures
        (match record {
            Some(r) => Some(Record { stable: r.0, left: r.1, base: r.2, right: r.3 }),
            None => None,
        }) == (match (in_base, in_right) {
            (None, None) => Some(Record { stable: false, left: Some(cl), base: None, right: None }),
            (None, Some(r)) => Some(
                Record { stable: true, left: Some(cl), base: None, right: Some(r.matching_node) },
            ),
            (Some(b), None) => if b.is_perfect_match {
                None
            } else {
                Some(
                    Record {
                        stable: false,
                        left: Some(cl),
                        base: Some(b.matching_node),
                        right: None,
                    },
                )
            },
            (Some(b), Some(r)) => Some(
                Record {
                    stable: true,
                    left: Some(cl),
                    base: Some(b.matching_node),
                    right: Some(r.matching_node),
                },
            ),
        }),
{
    match (in_base, in_right) {
        (None, None) => Some((false, Some(cl), None, None)),
        (None, Some(r)) => Some((true, Some(cl), None, Some(r.matching_node))),
        (Some(b), None) => if b.is_perfect_match {
            None
        } else {
            Some((false, Some(cl), Some(b.matching_node), None))
        },
        (Some(b), Some(r)) => Some((true, Some(cl), Some(b.matching_node), Some(r.matching_node))),
    }
}

/// What the second pass of an unordered merge adds to the log for a child.
fn record_of_second(in_base: Option<Matching>, in_left: Option<Matching>, cr: usize) -> (record:
    Option<(bool, Option<usize>, Option<usize>, Option<usize>)>)
    ensures
        (match record {
            Some(r) => Some(Record { stable: r.0, left: r.1, base: r.2, right: r.3 }),
            None => None,
        }) == (match (in_base, in_left) {
            (None, None) => Some(Record { stable: false, left: None, base: None, right: Some(cr) }),
            (Some(b), None) => if b.is_perfect_match {
                None
            } else {
                Some(
                    Record {
                        stable: false,
                        left: None,
                        base: Some(b.matching_node),
                        right: Some(cr),
                    },
                )
            },
            (_, Some(_)) => None,
        }),
{
    match (in_base, in_left) {
        (None, None) => Some((false, None, None, Some(cr))),
        (Some(b), None) => if b.is_perfect_match {
            None
        } else {
            Some((false, None, Some(b.matching_node), Some(cr)))
        },
        (_, Some(_)) => None,
    }
}

/// Adds to `log_state` the stable and unstable regions of the unordered
/// merge of the interior nodes `left` and `right`, between the marks of its
/// beginning and its end.
pub fn log_unordered_merge(
    forest: &Forest,
    left: usize,
    right: usize,
    base_left_matchings: &Matchings,
    base_right_matchings: &Matchings,
    left_right_matchings: &Matchings,
    log_state: &mut LogState,
)
    requires
        wf(forest@),
        left < forest@.len(),
        right < forest@.len(),
        !forest@[left as int].is_terminal,
        !forest@[right as int].is_terminal,
    ensures
        final(log_state)@ == unordered_log(
            crate::merge::scenario_of(
                forest,
                base_left_matchings,
                base_right_matchings,
                left_right_matchings,
            ),
            left,
            right,
            old(log_state)@,
        ),
{
    broadcast use vstd::std_specs::hash::group_hash_axioms;

    let ghost s = crate::merge::scenario_of(
        forest,
        base_left_matchings,
        base_right_matchings,
        left_right_matchings,
    );
    let left_node = forest.node(left);
    let children_left = left_node.children();
    let children_right = forest.node(right).children();
    let n = children_right.len();
    let stop = first_pass_end(forest, left);
    log_state.enter_unordered(&left_node.kind);
    let ghost begun = log_state@;
    let mut processed_nodes: std::collections::HashSet<usize> = std::collections::HashSet::new();
    let mut i: usize = 0;
    proof {
        assert(processed_nodes@ =~= processed(s, left, 0));
    }
    while i < stop
        invariant
            i <= stop,
            stop <= children_left@.len(),
            s == crate::merge::scenario_of(
                forest,
                base_left_matchings,
                base_right_matchings,
                left_right_matchings,
            ),
            children_left@ == forest@[left as int].children,
            processed_nodes@ == processed(s, left, i as nat),
            first_log(s, left, i as nat, stop as nat, log_state@) == first_log(
                s,
                left,
                0,
                stop as nat,
                begun,
            ),
        decreases stop - i,
    {
        let left_child = children_left[i];
        let in_base = base_left_matchings.find_matching_for(left_child);
        let in_right = left_right_matchings.find_matching_for(left_child);
        log_state.apply(record_of_first(in_base, in_right, left_child));
        processed_nodes.insert(left_child);
        if let Some(partner) = in_right {
            processed_nodes.insert(partner.matching_node);
        }
        proof {
            assert(processed_nodes@ =~= processed(s, left, (i + 1) as nat));
        }
        i += 1;
    }
    let ghost done = processed(s, left, stop as nat);
    let ghost after_first = log_state@;
    let mut j: usize = 0;
    while j < n
        invariant
            j <= n,
            s == crate::merge::scenario_of(
                forest,
                base_left_matchings,
                base_right_matchings,
                left_right_matchings,
            ),
            children_right@ == forest@[right as int].children,
            n == children_right@.len(),
            processed_nodes@ == done,
            second_log(s, right, j as nat, done, log_state@) == second_log(
                s,
                right,
                0,
                done,
                after_first,
            ),
        decreases n - j,
    {
        let right_child = children_right[j];
        if !processed_nodes.contains(&right_child) {
            let in_base = base_right_matchings.find_matching_for(right_child);
            let in_left = left_right_matchings.find_matching_for(right_child);
            log_state.apply(record_of_second(in_base, in_left, right_child));
        }
        j += 1;
    }
    log_state.finish();
    log_state.leave_unordered(&left_node.kind);
}

/// The log of the merge of the nodes `l` and `r` over `b` and of every merge
/// below it, begun in `state`. Terminals add nothing; interior nodes add the
/// regions of their children, and after each pair of children that is merged
/// the log of that merge.
pub open spec fn merge_log(s: Scenario, b: usize, l: usize, r: usize, state: Log) -> Log
    decreases room(s, l), 4nat, 0nat,
{
    if b >= s.f.len() || l >= s.f.len() || r >= s.f.len() {
        state
    } else if !s.f[b as int].is_terminal && !s.f[l as int].is_terminal
        && !s.f[r as int].is_terminal {
        if s.f[l as int].are_children_unordered && s.f[r as int].are_children_unordered {
            unordered_tree_log(s, l, r, state)
        } else {
            ordered_tree_log(s, l, r, state)
        }
    } else {
        state
    }
}

/// The log of the ordered merge of `l` and `r` and of every merge below it.
/// Nodes of different kinds, which are not merged, add nothing.
pub open spec fn ordered_tree_log(s: Scenario, l: usize, r: usize, state: Log) -> Log
    decreases room(s, l), 3nat, 0nat,
{
    if s.f[l as int].kind != s.f[r as int].kind {
        state
    } else {
        finished(ordered_tree_walk(s, l, r, 0, 0, state))
    }
}

/// The log after a step that merges the children `cl` and `cr` over `base`
/// has been followed by the log of that merge.
pub open spec fn below(s: Scenario, l: usize, base: usize, cl: usize, cr: usize, state: Log) -> Log
    decreases room(s, l), 0nat, 0nat,
{
    if deeper(s, l, cl) {
        merge_log(s, base, cl, cr, state)
    } else {
        state
    }
}

/// The log of an ordered merge from the cursors `i` and `j` on, with the
/// logs of the merges below it.
pub open spec fn ordered_tree_walk(
    s: Scenario,
    l: usize,
    r: usize,
    i: nat,
    j: nat,
    state: Log,
) -> Log
    decreases room(s, l), 2nat, (s.f[l as int].children.len() - i) + (s.f[r as int].children.len()
        - j),
{
    if i >= s.f[l as int].children.len() || j >= s.f[r as int].children.len() {
        state
    } else {
        let cl = s.f[l as int].children[i as int];
        let cr = s.f[r as int].children[j as int];
        let lr_l = matching_for(s.left_right, cl);
        let lr_r = matching_for(s.left_right, cr);
        let bl = matching_for(s.base_left, cl);
        let br = matching_for(s.base_right, cr);
        let bidir = lr_l.is_some() && lr_r.is_some();
        let step = step_for(bidir, lr_l, bl, lr_r, br, cl);
        let recorded = after_step(state, record_for(bidir, lr_l, bl, lr_r, br, cl, cr));
        ordered_tree_walk(
            s,
            l,
            r,
            moved(i, step.advance, Advance::Left),
            moved(j, step.advance, Advance::Right),
            match step.action {
                Action::Recurse { base } => below(s, l, base, cl, cr, recorded),
                _ => recorded,
            },
        )
    }
}

/// The log of the first pass of an unordered merge from the child `i` of `l`
/// on, with the logs of the merges below it.
pub open spec fn first_tree_log(s: Scenario, l: usize, i: nat, stop: nat, state: Log) -> Log
    decreases room(s, l), 2nat, stop - i,
{
    if i >= stop {
        state
    } else {
        let cl = s.f[l as int].children[i as int];
        let recorded = after_step(state, first_record(s, cl));
        first_tree_log(
            s,
            l,
            i + 1,
            stop,
            match (matching_for(s.base_left, cl), matching_for(s.left_right, cl)) {
                (Some(in_base), Some(in_right)) => below(
                    s,
                    l,
                    in_base.matching_node,
                    cl,
                    in_right.matching_node,
                    recorded,
                ),
                (None, Some(in_right)) => below(s, l, cl, cl, in_right.matching_node, recorded),
                _ => recorded,
            },
        )
    }
}

/// The log of the second pass of an unordered merge from the child `j` of
/// `r` on, with the logs of the merges below it.
pub open spec fn second_tree_log(
    s: Scenario,
    l: usize,
    r: usize,
    j: nat,
    done: Set<usize>,
    state: Log,
) -> Log
    decreases room(s, l), 2nat, s.f[r as int].children.len() - j,
{
    if j >= s.f[r as int].children.len() {
        state
    } else {
        let cr = s.f[r as int].children[j as int];
        second_tree_log(s, l, r, j + 1, done, if done.contains(cr) {
            state
        } else {
            let recorded = after_step(state, second_record(s, cr));
            match matching_for(s.left_right, cr) {
                Some(in_left) => below(s, l, cr, in_left.matching_node, cr, recorded),
                None => recorded,
            }
        })
    }
}

/// The log of the unordered merge of `l` and `r` and of every merge below
/// it, between the marks of its beginning and its end. Nodes of different
/// kinds, which are not merged, add nothing.
pub open spec fn unordered_tree_log(s: Scenario, l: usize, r: usize, state: Log) -> Log
    decreases room(s, l), 3nat, 0nat,
{
    if s.f[l as int].kind != s.f[r as int].kind {
        state
    } else {
        let stop = first_stop(s.f, l, 0);
        let passed = finished(
            second_tree_log(
                s,
                l,
                r,
                0,
                processed(s, l, stop),
                first_tree_log(s, l, 0, stop, entered(state, s.f[l as int].kind)),
            ),
        );
        left_behind(passed, s.f[l as int].kind)
    }
}

/// The log with the mark of the beginning of an unordered merge.
pub open spec fn entered(state: Log, kind: Seq<char>) -> Log {
    Log {
        log: state.log.push(ChunkEntry::UnorderedContextStart { node_kind: kind }),
        current_stable: state.current_stable,
        current_unstable: state.current_unstable,
    }
}

/// The log with the mark of the end of an unordered merge.
pub open spec fn left_behind(state: Log, kind: Seq<char>) -> Log {
    Log {
        log: state.log.push(ChunkEntry::UnorderedContextEnd { node_kind: kind }),
        current_stable: state.current_stable,
        current_unstable: state.current_unstable,
    }
}

/// What follows a step that merges two children, one level deeper, is the
/// log of their merge.
pub(crate) proof fn lemma_below(s: Scenario, l: usize, base: usize, cl: usize, cr: usize, state: Log)
    requires
        deeper(s, l, cl),
    ensures
        below(s, l, base, cl, cr, state) == merge_log(s, base, cl, cr, state),
{
}

/// How the log of an ordered merge goes on by one step.
pub(crate) proof fn lemma_tree_walk_step(
    s: Scenario,
    l: usize,
    r: usize,
    i: nat,
    j: nat,
    state: Log,
)
    requires
        i < s.f[l as int].children.len(),
        j < s.f[r as int].children.len(),
    ensures
        ordered_tree_walk(s, l, r, i, j, state) == ({
            let cl = s.f[l as int].children[i as int];
            let cr = s.f[r as int].children[j as int];
            let lr_l = matching_for(s.left_right, cl);
            let lr_r = matching_for(s.left_right, cr);
            let bl = matching_for(s.base_left, cl);
            let br = matching_for(s.base_right, cr);
            let bidir = lr_l.is_some() && lr_r.is_some();
            let step = step_for(bidir, lr_l, bl, lr_r, br, cl);
            let recorded = after_step(state, record_for(bidir, lr_l, bl, lr_r, br, cl, cr));
            ordered_tree_walk(
                s,
                l,
                r,
                moved(i, step.advance, Advance::Left),
                moved(j, step.advance, Advance::Right),
                match step.action {
                    Action::Recurse { base } => below(s, l, base, cl, cr, recorded),
                    _ => recorded,
                },
            )
        }),
{
}

/// How the log of the first pass goes on by one child.
pub(crate) proof fn lemma_first_tree_step(s: Scenario, l: usize, i: nat, stop: nat, state: Log)
    requires
        i < stop,
    ensures
        first_tree_log(s, l, i, stop, state) == ({
            let cl = s.f[l as int].children[i as int];
            let recorded = after_step(state, first_record(s, cl));
            first_tree_log(
                s,
                l,
                i + 1,
                stop,
                match (matching_for(s.base_left, cl), matching_for(s.left_right, cl)) {
                    (Some(in_base), Some(in_right)) => below(
                        s,
                        l,
                        in_base.matching_node,
                        cl,
                        in_right.matching_node,
                        recorded,
                    ),
                    (None, Some(in_right)) => below(
                        s,
                        l,
                        cl,
                        cl,
                        in_right.matching_node,
                        recorded,
                    ),
                    _ => recorded,
                },
            )
        }),
{
}

/// How the log of the second pass goes on by one child.
pub(crate) proof fn lemma_second_tree_step(
    s: Scenario,
    l: usize,
    r: usize,
    j: nat,
    done: Set<usize>,
    state: Log,
)
    requires
        j < s.f[r as int].children.len(),
    ensures
        second_tree_log(s, l, r, j, done, state) == ({
            let cr = s.f[r as int].children[j as int];
            second_tree_log(s, l, r, j + 1, done, if done.contains(cr) {
                state
            } else {
                let recorded = after_step(state, second_record(s, cr));
                match matching_for(s.left_right, cr) {
                    Some(in_left) => below(s, l, cr, in_left.matching_node, cr, recorded),
                    None => recorded,
                }
            })
        }),
{
}

/// Adds to `log_state` the log of the merge of `left` and `right` over
/// `base` and of every merge below it.
pub fn log_merge(
    forest: &Forest,
    base: usize,
    left: usize,
    right: usize,
    base_left_matchings: &Matchings,
    base_right_matchings: &Matchings,
    left_right_matchings: &Matchings,
    log_state: &mut LogState,
)
    requires
        sound(scenario_of(forest, base_left_matchings, base_right_matchings, left_right_matchings)),
        base < forest@.len(),
        left < forest@.len(),
        right < forest@.len(),
        forest@[left as int].depth == forest@[right as int].depth,
    ensures
        final(log_state)@ == merge_log(
            scenario_of(forest, base_left_matchings, base_right_matchings, left_right_matchings),
            base,
            left,
            right,
            old(log_state)@,
        ),
    decreases usize::MAX - forest@[left as int].depth, 2nat,
{
    let base_node = forest.node(base);
    let left_node = forest.node(left);
    let right_node = forest.node(right);
    if !base_node.is_terminal() && !left_node.is_terminal() && !right_node.is_terminal() {
        if left_node.are_children_unordered() && right_node.are_children_unordered() {
            log_unordered_tree(
                forest,
                left,
                right,
                base_left_matchings,
                base_right_matchings,
                left_right_matchings,
                log_state,
            );
        } else {
            log_ordered_tree(
                forest,
                left,
                right,
                base_left_matchings,
                base_right_matchings,
                left_right_matchings,
                log_state,
            );
        }
    }
}

/// Adds to `log_state` the log of the ordered merge of the interior nodes
/// `left` and `right` and of every merge below it.
pub fn log_ordered_tree(
    forest: &Forest,
    left: usize,
    right: usize,
    base_left_matchings: &Matchings,
    base_right_matchings: &Matchings,
    left_right_matchings: &Matchings,
    log_state: &mut LogState,
)
    requires
        sound(scenario_of(forest, base_left_matchings, base_right_matchings, left_right_matchings)),
        left < forest@.len(),
        right < forest@.len(),
        !forest@[left as int].is_terminal,
        !forest@[right as int].is_terminal,
        forest@[left as int].depth == forest@[right as int].depth,
    ensures
        final(log_state)@ == ordered_tree_log(
            scenario_of(forest, base_left_matchings, base_right_matchings, left_right_matchings),
            left,
            right,
            old(log_state)@,
        ),
    decreases usize::MAX - forest@[left as int].depth, 1nat,
{
    let ghost s = scenario_of(
        forest,
        base_left_matchings,
        base_right_matchings,
        left_right_matchings,
    );
    let left_node = forest.node(left);
    let right_node = forest.node(right);
    if left_node.kind != right_node.kind {
        return ;
    }
    let children_left = left_node.children();
    let children_right = right_node.children();
    let m = children_left.len();
    let n = children_right.len();
    let mut i: usize = 0;
    let mut j: usize = 0;
    while i < m && j < n
        invariant
            i <= m,
            j <= n,
            s == scenario_of(
                forest,
                base_left_matchings,
                base_right_matchings,
                left_right_matchings,
            ),
            sound(s),
            left < forest@.len(),
            right < forest@.len(),
            !forest@[left as int].is_terminal,
            !forest@[right as int].is_terminal,
            forest@[left as int].depth == forest@[right as int].depth,
            children_left@ == forest@[left as int].children,
            children_right@ == forest@[right as int].children,
            m == children_left@.len(),
            n == children_right@.len(),
            ordered_tree_walk(s, left, right, i as nat, j as nat, log_state@) == ordered_tree_walk(
                s,
                left,
                right,
                0,
                0,
                old(log_state)@,
            ),
        decreases (m - i) + (n - j),
    {
        let cur_left = children_left[i];
        let cur_right = children_right[j];
        proof {
            lemma_child_before(forest@, left as int, i as int);
            lemma_child_before(forest@, right as int, j as int);
        }
        let left_in_right = left_right_matchings.find_matching_for(cur_left);
        let right_in_left = left_right_matchings.find_matching_for(cur_right);
        let left_in_base = base_left_matchings.find_matching_for(cur_left);
        let right_in_base = base_right_matchings.find_matching_for(cur_right);
        let bidirectional = left_in_right.is_some() && right_in_left.is_some();
        let step = crate::merge::decide(
            bidirectional,
            left_in_right,
            left_in_base,
            right_in_left,
            right_in_base,
            cur_left,
        );
        proof {
            lemma_tree_walk_step(s, left, right, i as nat, j as nat, log_state@);
            crate::merge::ordered_merge::lemma_recurse_base(
                bidirectional,
                left_in_right,
                left_in_base,
                right_in_left,
                right_in_base,
                cur_left,
            );
            if left_in_base.is_some() {
                lemma_level_partner(s.base_left, s.f, cur_left);
            }
            if right_in_base.is_some() {
                lemma_level_partner(s.base_right, s.f, cur_right);
            }
        }
        log_state.apply(
            record_of_step(
                bidirectional,
                left_in_right,
                left_in_base,
                right_in_left,
                right_in_base,
                cur_left,
                cur_right,
            ),
        );
        match step.action {
            Action::Recurse { base } => {
                proof {
                    lemma_below(s, left, base, cur_left, cur_right, log_state@);
                }
                log_merge(
                    forest,
                    base,
                    cur_left,
                    cur_right,
                    base_left_matchings,
                    base_right_matchings,
                    left_right_matchings,
                    log_state,
                );
            },
            _ => {},
        }
        match step.advance {
            Advance::Left => {
                i += 1;
            },
            Advance::Right => {
                j += 1;
            },
            Advance::Both => {
                i += 1;
                j += 1;
            },
        }
    }
    log_state.finish();
}

/// Adds to `log_state` the log of the unordered merge of the interior nodes
/// `left` and `right` and of every merge below it.
pub fn log_unordered_tree(
    forest: &Forest,
    left: usize,
    right: usize,
    base_left_matchings: &Matchings,
    base_right_matchings: &Matchings,
    left_right_matchings: &Matchings,
    log_state: &mut LogState,
)
    requires
        sound(scenario_of(forest, base_left_matchings, base_right_matchings, left_right_matchings)),
        left < forest@.len(),
        right < forest@.len(),
        !forest@[left as int].is_terminal,
        !forest@[right as int].is_terminal,
        forest@[left as int].depth == forest@[right as int].depth,
    ensures
        final(log_state)@ == unordered_tree_log(
            scenario_of(forest, base_left_matchings, base_right_matchings, left_right_matchings),
            left,
            right,
            old(log_state)@,
        ),
    decreases usize::MAX - forest@[left as int].depth, 1nat,
{
    broadcast use vstd::std_specs::hash::group_hash_axioms;

    let ghost s = scenario_of(
        forest,
        base_left_matchings,
        base_right_matchings,
        left_right_matchings,
    );
    let left_node = forest.node(left);
    let right_node = forest.node(right);
    if left_node.kind != right_node.kind {
        return ;
    }
    let children_left = left_node.children();
    let children_right = right_node.children();
    let n = children_right.len();
    let stop = first_pass_end(forest, left);
    log_state.enter_unordered(&left_node.kind);
    let ghost begun = log_state@;
    let mut processed_nodes: std::collections::HashSet<usize> = std::collections::HashSet::new();
    let mut i: usize = 0;
    proof {
        assert(processed_nodes@ =~= processed(s, left, 0));
    }
    while i < stop
        invariant
            i <= stop,
            stop <= children_left@.len(),
            s == scenario_of(
                forest,
                base_left_matchings,
                base_right_matchings,
                left_right_matchings,
            ),
            sound(s),
            left < forest@.len(),
            right < forest@.len(),
            !forest@[left as int].is_terminal,
            forest@[left as int].depth == forest@[right as int].depth,
            children_left@ == forest@[left as int].children,
            processed_nodes@ == processed(s, left, i as nat),
            first_tree_log(s, left, i as nat, stop as nat, log_state@) == first_tree_log(
                s,
                left,
                0,
                stop as nat,
                begun,
            ),
        decreases stop - i,
    {
        let left_child = children_left[i];
        proof {
            lemma_child_before(forest@, left as int, i as int);
        }
        let in_base = base_left_matchings.find_matching_for(left_child);
        let in_right = left_right_matchings.find_matching_for(left_child);
        proof {
            if in_base.is_some() {
                lemma_level_partner(s.base_left, s.f, left_child);
            }
            if in_right.is_some() {
                lemma_level_partner(s.left_right, s.f, left_child);
            }
        }
        proof {
            lemma_first_tree_step(s, left, i as nat, stop as nat, log_state@);
        }
        log_state.apply(record_of_first(in_base, in_right, left_child));
        processed_nodes.insert(left_child);
        if let Some(partner) = in_right {
            processed_nodes.insert(partner.matching_node);
            let over = match in_base {
                Some(found) => found.matching_node,
                None => left_child,
            };
            proof {
                lemma_below(s, left, over, left_child, partner.matching_node, log_state@);
            }
            log_merge(
                forest,
                over,
                left_child,
                partner.matching_node,
                base_left_matchings,
                base_right_matchings,
                left_right_matchings,
                log_state,
            );
        }
        proof {
            assert(processed_nodes@ =~= processed(s, left, (i + 1) as nat));
        }
        i += 1;
    }
    let ghost done = processed(s, left, stop as nat);
    let ghost after_first = log_state@;
    let mut j: usize = 0;
    while j < n
        invariant
            j <= n,
            s == scenario_of(
                forest,
                base_left_matchings,
                base_right_matchings,
                left_right_matchings,
            ),
            sound(s),
            left < forest@.len(),
            right < forest@.len(),
            !forest@[right as int].is_terminal,
            forest@[left as int].depth == forest@[right as int].depth,
            children_right@ == forest@[right as int].children,
            n == children_right@.len(),
            processed_nodes@ == done,
            second_tree_log(s, left, right, j as nat, done, log_state@) == second_tree_log(
                s,
                left,
                right,
                0,
                done,
                after_first,
            ),
        decreases n - j,
    {
        let right_child = children_right[j];
        proof {
            lemma_child_before(forest@, right as int, j as int);
        }
        proof {
            lemma_second_tree_step(s, left, right, j as nat, done, log_state@);
        }
        if !processed_nodes.contains(&right_child) {
            let in_base = base_right_matchings.find_matching_for(right_child);
            let in_left = left_right_matchings.find_matching_for(right_child);
            proof {
                if in_left.is_some() {
                    lemma_level_partner(s.left_right, s.f, right_child);
                }
            }
            log_state.apply(record_of_second(in_base, in_left, right_child));
            if let Some(partner) = in_left {
                proof {
                    lemma_below(
                        s,
                        left,
                        right_child,
                        partner.matching_node,
                        right_child,
                        log_state@,
                    );
                }
                log_merge(
                    forest,
                    right_child,
                    partner.matching_node,
                    right_child,
                    base_left_matchings,
                    base_right_matchings,
                    left_right_matchings,
                    log_state,
                );
            }
        }
        j += 1;
    }
    log_state.finish();
    log_state.leave_unordered(&left_node.kind);
}

} // verus!

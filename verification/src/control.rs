use vstd::prelude::*;
use vstd::string::*;
use crate::forest::{flatten, lemma_flatten_len, wf, Forest, NodeView};
use crate::matching::matching_entry::MatchingEntry;
use crate::matching::matchings::entry_of;
use crate::matching::{calculate_matchings, matchings_of};
use crate::merge::merge_error::{message_of, MergeError, MergeFault};
use crate::merge::merged_cst_node::{conflicted, rendered, MergedTree};
use crate::merge::log_report::{describe_nodes, node_list, summaries_in};
use crate::merge::log_structures::{
    log_merge, merge_log, no_nodes, ChunkEntry, Log, LogState, MergeChunk,
};
use crate::merge::{merge, merge_of, Scenario};
use crate::model::{CSTNode, Language};

verus! {

/// Why a run ended without a result.
#[derive(Debug, PartialEq, Eq)]
pub enum ExecutionError {
    /// One of the revisions could not be parsed, for the reason given.
    ParsingError(String),
    /// The trees could not be merged.
    MergeError(MergeError),
}

/// The text that a run produced.
#[derive(Debug, PartialEq, Eq)]
pub enum ExecutionResult {
    WithConflicts(String),
    WithoutConflicts(String),
}

/// An `ExecutionError` as a mathematical value.
pub enum RunFault {
    Parsing(Seq<char>),
    Merge(MergeFault),
}

/// An `ExecutionResult` as a mathematical value.
pub enum RunText {
    WithConflicts(Seq<char>),
    WithoutConflicts(Seq<char>),
}

impl View for ExecutionError {
    type V = RunFault;

    open spec fn view(&self) -> RunFault {
        match self {
            ExecutionError::ParsingError(reason) => RunFault::Parsing(reason@),
            ExecutionError::MergeError(error) => RunFault::Merge(error@),
        }
    }
}

impl View for ExecutionResult {
    type V = RunText;

    open spec fn view(&self) -> RunText {
        match self {
            ExecutionResult::WithConflicts(text) => RunText::WithConflicts(text@),
            ExecutionResult::WithoutConflicts(text) => RunText::WithoutConflicts(text@),
        }
    }
}

impl ExecutionError {
    /// The message of the error.
    pub fn to_string(&self) -> (text: String)
        ensures
            text@ == (match self@ {
                RunFault::Parsing(reason) => "Parsing error occurred: "@ + reason,
                RunFault::Merge(fault) => "Merge error occurred: "@ + message_of(fault),
            }),
    {
        match self {
            ExecutionError::ParsingError(reason) => {
                let mut text = String::from_str("Parsing error occurred: ");
                text.append(reason.as_str());
                text
            },
            ExecutionError::MergeError(error) => {
                let mut text = String::from_str("Merge error occurred: ");
                let message = error.to_string();
                text.append(message.as_str());
                text
            },
        }
    }
}

impl ExecutionResult {
    /// The text that the run produced.
    pub fn to_string(&self) -> (text: String)
        ensures
            text@ == (match self@ {
                RunText::WithConflicts(value) => value,
                RunText::WithoutConflicts(value) => value,
            }),
    {
        match self {
            ExecutionResult::WithConflicts(value) => value.clone(),
            ExecutionResult::WithoutConflicts(value) => value.clone(),
        }
    }
}

/// The language of the files with the given extension: `java` stands for
/// Java and `cs` for C#; no other extension is known.
pub fn language_from_extension(extension: &str) -> (language: Option<Language>)
    ensures
        language == (if extension@ == "java"@ {
            Some(Language::Java)
        } else if extension@ == "cs"@ {
            Some(Language::CSharp)
        } else {
            None
        }),
{
    let given = String::from_str(extension);
    if given == String::from_str("java") {
        Some(Language::Java)
    } else if given == String::from_str("cs") {
        Some(Language::CSharp)
    } else {
        None
    }
}

/// The view of what a run returns.
pub open spec fn run_view(result: Result<ExecutionResult, ExecutionError>) -> Result<
    RunText,
    RunFault,
> {
    match result {
        Ok(text) => Ok(text@),
        Err(error) => Err(error@),
    }
}

/// The arena that holds the three trees, base first, then left, then right.
pub open spec fn three_trees(base: CSTNode, left: CSTNode, right: CSTNode) -> Seq<NodeView> {
    flatten(base, 0, 0) + flatten(left, base.size(), 0) + flatten(
        right,
        base.size() + left.size(),
        0,
    )
}

/// The merge of the three trees over the matchings that the matcher finds
/// between left and base, right and base, and left and right.
pub open spec fn trees_merged(base: CSTNode, left: CSTNode, right: CSTNode) -> Result<
    MergedTree,
    MergeFault,
> {
    let f = three_trees(base, left, right);
    let b = (base.size() - 1) as usize;
    let l = (base.size() + left.size() - 1) as usize;
    let r = (base.size() + left.size() + right.size() - 1) as usize;
    merge_of(
        Scenario {
            f,
            base_left: matchings_of(f, l, b),
            base_right: matchings_of(f, r, b),
            left_right: matchings_of(f, l, r),
        },
        b,
        l,
        r,
    )
}

/// The text of a merged tree, told apart by whether the tree holds a
/// conflict.
pub open spec fn classified(tree: MergedTree) -> RunText {
    if conflicted(tree) {
        RunText::WithConflicts(rendered(tree))
    } else {
        RunText::WithoutConflicts(rendered(tree))
    }
}

/// What a run on the three revisions gives. Where base and left are the same
/// text, it is right; where base and right are, it is left; neither is parsed
/// for that. Else the first revision that could not be parsed ends the run,
/// and where all were parsed the result is the text of their merge.
pub open spec fn run_of(
    base: Seq<char>,
    left: Seq<char>,
    right: Seq<char>,
    base_tree: Result<CSTNode, String>,
    left_tree: Result<CSTNode, String>,
    right_tree: Result<CSTNode, String>,
) -> Result<RunText, RunFault> {
    if base == left {
        Ok(RunText::WithoutConflicts(right))
    } else if base == right {
        Ok(RunText::WithoutConflicts(left))
    } else {
        match (base_tree, left_tree, right_tree) {
            (Err(reason), _, _) => Err(RunFault::Parsing(reason@)),
            (Ok(_), Err(reason), _) => Err(RunFault::Parsing(reason@)),
            (Ok(_), Ok(_), Err(reason)) => Err(RunFault::Parsing(reason@)),
            (Ok(b), Ok(l), Ok(r)) => match trees_merged(b, l, r) {
                Ok(tree) => Ok(classified(tree)),
                Err(fault) => Err(RunFault::Merge(fault)),
            },
        }
    }
}

/// The three trees together fit into one arena.
pub open spec fn trees_fit(
    base_tree: Result<CSTNode, String>,
    left_tree: Result<CSTNode, String>,
    right_tree: Result<CSTNode, String>,
) -> bool {
    match (base_tree, left_tree, right_tree) {
        (Ok(b), Ok(l), Ok(r)) => b.size() + l.size() + r.size() <= u32::MAX,
        _ => true,
    }
}

/// One entry of the log of a run, as a report shows it: for a region what
/// is said of its nodes on the left, in base and on the right, and for the
/// merge of a node whose children may stand in any order the marks of its
/// beginning and its end.
#[derive(Debug, PartialEq, Eq)]
pub enum ReportedChunk {
    Stable { left: String, base: String, right: String },
    Unstable { left: String, base: String, right: String },
    UnorderedContextStart { node_kind: String },
    UnorderedContextEnd { node_kind: String },
}

/// A `ReportedChunk` as a mathematical value.
pub enum Reported {
    Stable { left: Seq<char>, base: Seq<char>, right: Seq<char> },
    Unstable { left: Seq<char>, base: Seq<char>, right: Seq<char> },
    UnorderedContextStart { node_kind: Seq<char> },
    UnorderedContextEnd { node_kind: Seq<char> },
}

impl View for ReportedChunk {
    type V = Reported;

    open spec fn view(&self) -> Reported {
        match self {
            ReportedChunk::Stable { left, base, right } => Reported::Stable {
                left: left@,
                base: base@,
                right: right@,
            },
            ReportedChunk::Unstable { left, base, right } => Reported::Unstable {
                left: left@,
                base: base@,
                right: right@,
            },
            ReportedChunk::UnorderedContextStart { node_kind } => Reported::UnorderedContextStart {
                node_kind: node_kind@,
            },
            ReportedChunk::UnorderedContextEnd { node_kind } => Reported::UnorderedContextEnd {
                node_kind: node_kind@,
            },
        }
    }
}

/// What a report shows of one entry of a log.
pub open spec fn reported(f: Seq<NodeView>, entry: ChunkEntry) -> Reported {
    match entry {
        ChunkEntry::Stable(chunk) => Reported::Stable {
            left: node_list(summaries_in(f, chunk.left_nodes)),
            base: node_list(summaries_in(f, chunk.base_nodes)),
            right: node_list(summaries_in(f, chunk.right_nodes)),
        },
        ChunkEntry::Unstable(chunk) => Reported::Unstable {
            left: node_list(summaries_in(f, chunk.left_nodes)),
            base: node_list(summaries_in(f, chunk.base_nodes)),
            right: node_list(summaries_in(f, chunk.right_nodes)),
        },
        ChunkEntry::UnorderedContextStart { node_kind } => Reported::UnorderedContextStart {
            node_kind,
        },
        ChunkEntry::UnorderedContextEnd { node_kind } => Reported::UnorderedContextEnd {
            node_kind,
        },
    }
}

/// What a report shows of a log, entry by entry.
pub fn report_chunks(forest: &Forest, log: &Vec<MergeChunk>) -> (report: Vec<ReportedChunk>)
    requires
        wf(forest@),
    ensures
        report@.len() == log@.len(),
        forall|k: int|
            0 <= k < log@.len() ==> (#[trigger] report@[k])@ == reported(forest@, log@[k]@),
{
    let mut report: Vec<ReportedChunk> = Vec::new();
    let mut k: usize = 0;
    while k < log.len()
        invariant
            k <= log.len(),
            wf(forest@),
            report@.len() == k,
            forall|i: int| 0 <= i < k ==> (#[trigger] report@[i])@ == reported(forest@, log@[i]@),
        decreases log.len() - k,
    {
        let entry = match &log[k] {
            MergeChunk::Stable(data) => ReportedChunk::Stable {
                left: describe_nodes(forest, &data.left_nodes),
                base: describe_nodes(forest, &data.base_nodes),
                right: describe_nodes(forest, &data.right_nodes),
            },
            MergeChunk::Unstable(data) => ReportedChunk::Unstable {
                left: describe_nodes(forest, &data.left_nodes),
                base: describe_nodes(forest, &data.base_nodes),
                right: describe_nodes(forest, &data.right_nodes),
            },
            MergeChunk::UnorderedContextStart { node_kind } => ReportedChunk::UnorderedContextStart {
                node_kind: node_kind.clone(),
            },
            MergeChunk::UnorderedContextEnd { node_kind } => ReportedChunk::UnorderedContextEnd {
                node_kind: node_kind.clone(),
            },
        };
        report.push(entry);
        k += 1;
    }
    report
}

/// The log of the merge of the three trees, over the matchings that the
/// matcher finds between them.
pub open spec fn trees_log(base: CSTNode, left: CSTNode, right: CSTNode) -> Log {
    let f = three_trees(base, left, right);
    let b = (base.size() - 1) as usize;
    let l = (base.size() + left.size() - 1) as usize;
    let r = (base.size() + left.size() + right.size() - 1) as usize;
    merge_log(
        Scenario {
            f,
            base_left: matchings_of(f, l, b),
            base_right: matchings_of(f, r, b),
            left_right: matchings_of(f, l, r),
        },
        b,
        l,
        r,
        Log { log: Seq::empty(), current_stable: no_nodes(), current_unstable: no_nodes() },
    )
}

/// The log of the merge of three parsed revisions, as a report shows it:
/// the stable and unstable regions of every merge of two interior nodes.
pub fn chunk_log(base: &CSTNode, left: &CSTNode, right: &CSTNode) -> (report: Vec<ReportedChunk>)
    requires
        base.size() + left.size() + right.size() <= u32::MAX,
    ensures
        report@.len() == trees_log(*base, *left, *right).log.len(),
        forall|k: int|
            0 <= k < report@.len() ==> (#[trigger] report@[k])@ == reported(
                three_trees(*base, *left, *right),
                trees_log(*base, *left, *right).log[k],
            ),
{
    let mut forest = Forest::new();
    let base_root = forest.insert(base);
    let ghost only_base = forest@;
    let left_root = forest.insert(left);
    let ghost base_and_left = forest@;
    let right_root = forest.insert(right);
    proof {
        lemma_flatten_len(*base, 0, 0);
        lemma_flatten_len(*left, base.size(), 0);
        lemma_flatten_len(*right, base.size() + left.size(), 0);
        assert(forest@ =~= three_trees(*base, *left, *right));
        assert(forest@[base_root as int] == only_base[base_root as int]);
        assert(forest@[left_root as int] == base_and_left[left_root as int]);
    }
    let matchings_left_base = calculate_matchings(&forest, left_root, base_root);
    let matchings_right_base = calculate_matchings(&forest, right_root, base_root);
    let matchings_left_right = calculate_matchings(&forest, left_root, right_root);
    let mut log_state = LogState::new();
    log_merge(
        &forest,
        base_root,
        left_root,
        right_root,
        &matchings_left_base,
        &matchings_right_base,
        &matchings_left_right,
        &mut log_state,
    );
    let report = report_chunks(&forest, &log_state.log);
    proof {
        assert forall|k: int| 0 <= k < report@.len() implies (#[trigger] report@[k])@ == reported(
            three_trees(*base, *left, *right),
            trees_log(*base, *left, *right).log[k],
        ) by {
            assert(log_state@.log[k] == log_state.log@[k]@);
        }
    }
    report
}

/// Whether the three trees together fit into one arena.
pub fn fit_together(base: &CSTNode, left: &CSTNode, right: &CSTNode) -> (fit: bool)
    ensures
        fit == (base.size() + left.size() + right.size() <= u32::MAX),
{
    let limit: usize = 0xFFFF_FFFF;
    match base.size_within(limit) {
        Some(in_base) => match left.size_within(limit - in_base) {
            Some(in_left) => right.size_within(limit - in_base - in_left).is_some(),
            None => false,
        },
        None => false,
    }
}

/// Merges three parsed revisions: matches left with base, right with base
/// and left with right, and merges the three roots over these matchings.
pub fn merge_trees(base: &CSTNode, left: &CSTNode, right: &CSTNode) -> (merged: Result<
    ExecutionResult,
    ExecutionError,
>)
    requires
        base.size() + left.size() + right.size() <= u32::MAX,
    ensures
        run_view(merged) == (match trees_merged(*base, *left, *right) {
            Ok(tree) => Ok::<RunText, RunFault>(classified(tree)),
            Err(fault) => Err::<RunText, RunFault>(RunFault::Merge(fault)),
        }),
{
    let mut forest = Forest::new();
    let base_root = forest.insert(base);
    let ghost only_base = forest@;
    let left_root = forest.insert(left);
    let ghost base_and_left = forest@;
    let right_root = forest.insert(right);
    proof {
        lemma_flatten_len(*base, 0, 0);
        lemma_flatten_len(*left, base.size(), 0);
        lemma_flatten_len(*right, base.size() + left.size(), 0);
        assert(forest@ =~= three_trees(*base, *left, *right));
        assert(forest@[base_root as int] == only_base[base_root as int]);
        assert(forest@[left_root as int] == base_and_left[left_root as int]);
    }
    let matchings_left_base = calculate_matchings(&forest, left_root, base_root);
    let matchings_right_base = calculate_matchings(&forest, right_root, base_root);
    let matchings_left_right = calculate_matchings(&forest, left_root, right_root);
    let merged = merge(
        &forest,
        base_root,
        left_root,
        right_root,
        &matchings_left_base,
        &matchings_right_base,
        &matchings_left_right,
    );
    match merged {
        Ok(tree) => {
            let text = tree.to_string();
            if tree.has_conflict() {
                Ok(ExecutionResult::WithConflicts(text))
            } else {
                Ok(ExecutionResult::WithoutConflicts(text))
            }
        },
        Err(error) => Err(ExecutionError::MergeError(error)),
    }
}

/// What a run gives without a merge: right where base and left are the same
/// text, left where base and right are, and nothing else.
pub open spec fn equal_side_of(base: Seq<char>, left: Seq<char>, right: Seq<char>) -> Option<
    RunText,
> {
    if base == left {
        Some(RunText::WithoutConflicts(right))
    } else if base == right {
        Some(RunText::WithoutConflicts(left))
    } else {
        None
    }
}

/// The result of a run that needs no merge, if base is the same text as one
/// of the two sides. Nothing has to be parsed for it.
pub fn equal_side(base: &str, left: &str, right: &str) -> (result: Option<ExecutionResult>)
    ensures
        (match result {
            Some(text) => Some(text@),
            None => None,
        }) == equal_side_of(base@, left@, right@),
{
    let base_text = String::from_str(base);
    let left_text = String::from_str(left);
    let right_text = String::from_str(right);
    if base_text == left_text {
        Some(ExecutionResult::WithoutConflicts(right_text))
    } else if base_text == right_text {
        Some(ExecutionResult::WithoutConflicts(left_text))
    } else {
        None
    }
}

/// Runs the tool on the texts of three revisions and on what parsing each of
/// them gave.
pub fn run_tool_on_merge_scenario(
    base: &str,
    left: &str,
    right: &str,
    base_tree: &Result<CSTNode, String>,
    left_tree: &Result<CSTNode, String>,
    right_tree: &Result<CSTNode, String>,
) -> (outcome: Result<ExecutionResult, ExecutionError>)
    requires
        trees_fit(*base_tree, *left_tree, *right_tree),
    ensures
        run_view(outcome) == run_of(
            base@,
            left@,
            right@,
            *base_tree,
            *left_tree,
            *right_tree,
        ),
        base@ == left@ ==> run_view(outcome) == Ok::<RunText, RunFault>(
            RunText::WithoutConflicts(right@),
        ),
        base@ == right@ ==> run_view(outcome) == Ok::<RunText, RunFault>(
            RunText::WithoutConflicts(if base@ == left@ {
                right@
            } else {
                left@
            }),
        ),
{
    if let Some(result) = equal_side(base, left, right) {
        return Ok(result);
    }
    let base_root = match base_tree {
        Ok(tree) => tree,
        Err(reason) => {
            return Err(ExecutionError::ParsingError(reason.clone()));
        },
    };
    let left_root = match left_tree {
        Ok(tree) => tree,
        Err(reason) => {
            return Err(ExecutionError::ParsingError(reason.clone()));
        },
    };
    let right_root = match right_tree {
        Ok(tree) => tree,
        Err(reason) => {
            return Err(ExecutionError::ParsingError(reason.clone()));
        },
    };
    merge_trees(base_root, left_root, right_root)
}

/// What a comparison of two revisions gives: the reason for which the first
/// of them could not be parsed, or the entry of the two roots, which is the
/// entry of score 0 where the roots are not matched.
pub open spec fn diff_of(left_tree: Result<CSTNode, String>, right_tree: Result<CSTNode, String>)
    -> Result<MatchingEntry, RunFault> {
    match (left_tree, right_tree) {
        (Err(reason), _) => Err(RunFault::Parsing(reason@)),
        (Ok(_), Err(reason)) => Err(RunFault::Parsing(reason@)),
        (Ok(l), Ok(r)) => {
            let f = flatten(l, 0, 0) + flatten(r, l.size(), 0);
            let left_root = (l.size() - 1) as usize;
            let right_root = (l.size() + r.size() - 1) as usize;
            match entry_of(matchings_of(f, left_root, right_root), left_root, right_root) {
                Some(entry) => Ok(entry),
                None => Ok(MatchingEntry { score: 0, is_perfect_match: false }),
            }
        },
    }
}

/// Compares two parsed revisions: how similar their roots are, and whether
/// they hold the same text.
pub fn run_diff_on_files(left_tree: &Result<CSTNode, String>, right_tree: &Result<CSTNode, String>)
    -> (found: Result<MatchingEntry, ExecutionError>)
    requires
        match (*left_tree, *right_tree) {
            (Ok(l), Ok(r)) => l.size() + r.size() <= u32::MAX,
            _ => true,
        },
    ensures
        (match found {
            Ok(entry) => Ok::<MatchingEntry, RunFault>(entry),
            Err(error) => Err::<MatchingEntry, RunFault>(error@),
        }) == diff_of(*left_tree, *right_tree),
{
    let left = match left_tree {
        Ok(tree) => tree,
        Err(reason) => {
            return Err(ExecutionError::ParsingError(reason.clone()));
        },
    };
    let right = match right_tree {
        Ok(tree) => tree,
        Err(reason) => {
            return Err(ExecutionError::ParsingError(reason.clone()));
        },
    };
    let mut forest = Forest::new();
    let left_root = forest.insert(left);
    let right_root = forest.insert(right);
    proof {
        lemma_flatten_len(*left, 0, 0);
        lemma_flatten_len(*right, left.size(), 0);
        assert(forest@ =~= flatten(*left, 0, 0) + flatten(*right, left.size(), 0));
    }
    let matchings_left_right = calculate_matchings(&forest, left_root, right_root);
    match matchings_left_right.get_matching_entry(left_root, right_root) {
        Some(entry) => Ok(entry),
        None => Ok(MatchingEntry { score: 0, is_perfect_match: false }),
    }
}

} // verus!

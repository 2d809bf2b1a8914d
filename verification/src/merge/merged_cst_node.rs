use vstd::prelude::*;
use vstd::string::*;
use crate::forest::{
    clone_option_string, lemma_child_before, option_string_view, wf, Forest, NodeData, NodeView,
};

verus! {

/// A node of a merged tree. It holds its text itself and has no identity.
#[derive(Debug, PartialEq, Eq)]
pub enum MergedCSTNode {
    Terminal { kind: String, value: String, leading_white_space: Option<String> },
    NonTerminal {
        kind: String,
        children: Vec<MergedCSTNode>,
        leading_white_space: Option<String>,
    },
    Conflict { left: Option<Box<MergedCSTNode>>, right: Option<Box<MergedCSTNode>> },
}

/// A merged tree as a mathematical value.
pub enum MergedTree {
    Terminal { kind: Seq<char>, value: Seq<char>, leading_white_space: Option<Seq<char>> },
    NonTerminal {
        kind: Seq<char>,
        children: Seq<MergedTree>,
        leading_white_space: Option<Seq<char>>,
    },
    Conflict { left: Option<Box<MergedTree>>, right: Option<Box<MergedTree>> },
}

impl MergedCSTNode {
    /// The views of a sequence of merged nodes.
    pub open spec fn views(nodes: Seq<MergedCSTNode>) -> Seq<MergedTree>
        decreases nodes,
    {
        if nodes.len() == 0 {
            Seq::empty()
        } else {
            Self::views(nodes.drop_last()).push(nodes.last()@)
        }
    }
}

impl View for MergedCSTNode {
    type V = MergedTree;

    open spec fn view(&self) -> MergedTree
        decreases self,
    {
        match self {
            MergedCSTNode::Terminal { kind, value, leading_white_space } => MergedTree::Terminal {
                kind: kind@,
                value: value@,
                leading_white_space: option_string_view(*leading_white_space),
            },
            MergedCSTNode::NonTerminal {
                kind,
                children,
                leading_white_space,
            } => MergedTree::NonTerminal {
                kind: kind@,
                children: MergedCSTNode::views(children@),
                leading_white_space: option_string_view(*leading_white_space),
            },
            MergedCSTNode::Conflict { left, right } => MergedTree::Conflict {
                left: match left {
                    Some(node) => Some(Box::new((**node)@)),
                    None => None,
                },
                right: match right {
                    Some(node) => Some(Box::new((**node)@)),
                    None => None,
                },
            },
        }
    }
}

/// The marker that opens a conflict, on a line of its own.
pub open spec fn conflict_start() -> Seq<char> {
    seq!['\n', '<', '<', '<', '<', '<', '<', '<', '\n']
}

/// The marker between the two sides of a conflict, on a line of its own.
pub open spec fn conflict_middle() -> Seq<char> {
    seq!['\n', '=', '=', '=', '=', '=', '=', '=', '\n']
}

/// The marker that closes a conflict, on a line of its own.
pub open spec fn conflict_end() -> Seq<char> {
    seq!['\n', '>', '>', '>', '>', '>', '>', '>', '\n']
}

/// The white space that stands before a merged node.
pub open spec fn leading_of(tree: MergedTree) -> Seq<char> {
    match tree {
        MergedTree::Terminal { leading_white_space: Some(space), .. } => space,
        MergedTree::NonTerminal { leading_white_space: Some(space), .. } => space,
        _ => Seq::empty(),
    }
}

/// The text of a merged tree. A terminal gives its value; an interior node
/// gives, for each child in turn, the white space that leads it and then the
/// child's text; a conflict gives its two sides between the three markers.
pub open spec fn rendered(tree: MergedTree) -> Seq<char>
    decreases tree,
{
    match tree {
        MergedTree::Terminal { value, .. } => value,
        MergedTree::NonTerminal { children, .. } => rendered_children(children),
        MergedTree::Conflict { left, right } => conflict_start() + (match left {
            Some(side) => rendered(*side),
            None => Seq::empty(),
        }) + conflict_middle() + (match right {
            Some(side) => rendered(*side),
            None => Seq::empty(),
        }) + conflict_end(),
    }
}

/// The text of a sequence of merged trees, each led by its white space.
pub open spec fn rendered_children(children: Seq<MergedTree>) -> Seq<char>
    decreases children,
{
    if children.len() == 0 {
        Seq::empty()
    } else {
        rendered_children(children.drop_last()) + leading_of(children.last()) + rendered(
            children.last(),
        )
    }
}

/// Whether a merged tree holds a conflict.
pub open spec fn conflicted(tree: MergedTree) -> bool
    decreases tree,
{
    match tree {
        MergedTree::Terminal { .. } => false,
        MergedTree::NonTerminal { children, .. } => any_conflicted(children),
        MergedTree::Conflict { .. } => true,
    }
}

/// Whether one of the merged trees holds a conflict.
pub open spec fn any_conflicted(children: Seq<MergedTree>) -> bool
    decreases children,
{
    if children.len() == 0 {
        false
    } else {
        any_conflicted(children.drop_last()) || conflicted(children.last())
    }
}

/// Every conflict of the tree holds at least one side.
pub open spec fn sided(tree: MergedTree) -> bool
    decreases tree,
{
    match tree {
        MergedTree::Terminal { .. } => true,
        MergedTree::NonTerminal { children, .. } => all_sided(children),
        MergedTree::Conflict { left, right } => {
            &&& left.is_some() || right.is_some()
            &&& match left {
                Some(side) => sided(*side),
                None => true,
            }
            &&& match right {
                Some(side) => sided(*side),
                None => true,
            }
        },
    }
}

/// Every conflict of the trees holds at least one side.
pub open spec fn all_sided(children: Seq<MergedTree>) -> bool
    decreases children,
{
    if children.len() == 0 {
        true
    } else {
        all_sided(children.drop_last()) && sided(children.last())
    }
}

/// The terminal of the given value, kind and white space is taken from the
/// arena: some terminal holds its value, and some terminal its kind and the
/// white space before it.
pub open spec fn terminal_drawn(
    f: Seq<NodeView>,
    kind: Seq<char>,
    value: Seq<char>,
    space: Option<Seq<char>>,
) -> bool {
    exists|v: int, k: int|
        #![trigger f[v], f[k]]
        {
            &&& 0 <= v < f.len() && f[v].is_terminal && f[v].value == value
            &&& 0 <= k < f.len() && f[k].is_terminal && f[k].kind == kind
                && f[k].leading_white_space == space
        }
}

/// The interior node of the given kind and white space is taken from the
/// arena: some interior node holds both.
pub open spec fn interior_drawn(f: Seq<NodeView>, kind: Seq<char>, space: Option<Seq<char>>) -> bool {
    exists|k: int|
        0 <= k < f.len() && !(#[trigger] f[k]).is_terminal && f[k].kind == kind
            && f[k].leading_white_space == space
}

/// Every text of the tree is taken unchanged from the arena `f`: the value
/// of each terminal is the value of a terminal of the arena, and so are the
/// kinds and the white space.
pub open spec fn drawn(tree: MergedTree, f: Seq<NodeView>) -> bool
    decreases tree,
{
    match tree {
        MergedTree::Terminal { kind, value, leading_white_space } => terminal_drawn(
            f,
            kind,
            value,
            leading_white_space,
        ),
        MergedTree::NonTerminal { kind, children, leading_white_space } => {
            &&& interior_drawn(f, kind, leading_white_space)
            &&& all_drawn(children, f)
        },
        MergedTree::Conflict { left, right } => {
            &&& match left {
                Some(side) => drawn(*side, f),
                None => true,
            }
            &&& match right {
                Some(side) => drawn(*side, f),
                None => true,
            }
        },
    }
}

/// Every text of the trees is taken unchanged from the arena `f`.
pub open spec fn all_drawn(children: Seq<MergedTree>, f: Seq<NodeView>) -> bool
    decreases children,
{
    if children.len() == 0 {
        true
    } else {
        all_drawn(children.drop_last(), f) && drawn(children.last(), f)
    }
}

/// What marks a merged tree as sound: every conflict holds a side, and every
/// text is taken unchanged from the arena `f`.
pub open spec fn sound_tree(tree: MergedTree, f: Seq<NodeView>) -> bool {
    sided(tree) && drawn(tree, f)
}

/// The subtree at `id` as a merged tree, unchanged.
pub open spec fn merged_from(f: Seq<NodeView>, id: int) -> MergedTree
    decreases id, f[id].children.len() + 1,
{
    if f[id].is_terminal {
        MergedTree::Terminal {
            kind: f[id].kind,
            value: f[id].value,
            leading_white_space: f[id].leading_white_space,
        }
    } else {
        MergedTree::NonTerminal {
            kind: f[id].kind,
            children: merged_from_children(f, id, f[id].children.len()),
            leading_white_space: f[id].leading_white_space,
        }
    }
}

/// The first `upto` children of node `id` as merged trees, unchanged.
pub open spec fn merged_from_children(f: Seq<NodeView>, id: int, upto: nat) -> Seq<MergedTree>
    decreases id, upto,
{
    if upto == 0 || upto > f[id].children.len() {
        Seq::empty()
    } else {
        let c = f[id].children[upto - 1];
        if c < id {
            merged_from_children(f, id, (upto - 1) as nat).push(merged_from(f, c as int))
        } else {
            merged_from_children(f, id, (upto - 1) as nat)
        }
    }
}

/// The white space that stands before the node `id`.
pub open spec fn space_before(f: Seq<NodeView>, id: int) -> Seq<char> {
    match f[id].leading_white_space {
        Some(space) => space,
        None => Seq::empty(),
    }
}

/// The text of the subtree at `id` as it stood in its source: the values of
/// its terminals, each child led by the white space before it.
pub open spec fn source_text(f: Seq<NodeView>, id: int) -> Seq<char>
    decreases id, f[id].children.len() + 1,
{
    if f[id].is_terminal {
        f[id].value
    } else {
        source_of_children(f, id, f[id].children.len())
    }
}

/// The text of the first `upto` children of node `id` as it stood in its
/// source.
pub open spec fn source_of_children(f: Seq<NodeView>, id: int, upto: nat) -> Seq<char>
    decreases id, upto,
{
    if upto == 0 || upto > f[id].children.len() {
        Seq::empty()
    } else {
        let c = f[id].children[upto - 1];
        if c < id {
            source_of_children(f, id, (upto - 1) as nat) + space_before(f, c as int) + source_text(
                f,
                c as int,
            )
        } else {
            source_of_children(f, id, (upto - 1) as nat)
        }
    }
}

/// A subtree that is taken over unchanged renders the text it stood for in
/// its source, byte for byte, and holds no conflict.
pub proof fn lemma_unchanged_renders_source(f: Seq<NodeView>, id: int)
    requires
        wf(f),
        0 <= id < f.len(),
    ensures
        rendered(merged_from(f, id)) == source_text(f, id),
        !conflicted(merged_from(f, id)),
        sided(merged_from(f, id)),
        drawn(merged_from(f, id), f),
        leading_of(merged_from(f, id)) == space_before(f, id),
    decreases id, f[id].children.len() + 1,
{
    if !f[id].is_terminal {
        lemma_unchanged_children_render_source(f, id, f[id].children.len());
        assert(interior_drawn(f, f[id].kind, f[id].leading_white_space)) by {
            assert(!f[id].is_terminal);
        }
    } else {
        assert(terminal_drawn(f, f[id].kind, f[id].value, f[id].leading_white_space)) by {
            assert(f[id].is_terminal && f[id].value == f[id].value);
        }
    }
}

/// The first `upto` children of a node, taken over unchanged, render the
/// text they stood for in their source.
pub(crate) proof fn lemma_unchanged_children_render_source(f: Seq<NodeView>, id: int, upto: nat)
    requires
        wf(f),
        0 <= id < f.len(),
        upto <= f[id].children.len(),
    ensures
        rendered_children(merged_from_children(f, id, upto)) == source_of_children(f, id, upto),
        !any_conflicted(merged_from_children(f, id, upto)),
        all_sided(merged_from_children(f, id, upto)),
        all_drawn(merged_from_children(f, id, upto), f),
    decreases id, upto,
{
    if upto > 0 {
        lemma_child_before(f, id, upto - 1);
        let c = f[id].children[upto - 1];
        lemma_unchanged_children_render_source(f, id, (upto - 1) as nat);
        lemma_unchanged_renders_source(f, c as int);
        let before = merged_from_children(f, id, (upto - 1) as nat);
        let all = merged_from_children(f, id, upto);
        assert(all == before.push(merged_from(f, c as int)));
        assert(all.drop_last() =~= before);
        assert(all.last() == merged_from(f, c as int));
    }
}

/// The views of a sequence grow with the sequence.
pub(crate) proof fn lemma_views_push(nodes: Seq<MergedCSTNode>, node: MergedCSTNode)
    ensures
        MergedCSTNode::views(nodes.push(node)) == MergedCSTNode::views(nodes).push(node@),
        all_sided(MergedCSTNode::views(nodes)) && sided(node@) ==> all_sided(
            MergedCSTNode::views(nodes.push(node)),
        ),
        forall|f: Seq<NodeView>|
            all_drawn(MergedCSTNode::views(nodes), f) && drawn(node@, f) ==> #[trigger] all_drawn(
                MergedCSTNode::views(nodes.push(node)),
                f,
            ),
{
    assert(nodes.push(node).drop_last() =~= nodes);
    assert(MergedCSTNode::views(nodes).push(node@).drop_last() =~= MergedCSTNode::views(nodes));
}

/// The views of the first nodes of a sequence, one node more at a time.
pub(crate) proof fn lemma_views_take(nodes: Seq<MergedCSTNode>, k: int)
    requires
        0 <= k < nodes.len(),
    ensures
        MergedCSTNode::views(nodes.take(k + 1)) == MergedCSTNode::views(nodes.take(k)).push(
            nodes[k]@,
        ),
        MergedCSTNode::views(nodes.take(k + 1)).drop_last() == MergedCSTNode::views(
            nodes.take(k),
        ),
        MergedCSTNode::views(nodes.take(k + 1)).last() == nodes[k]@,
{
    assert(nodes.take(k + 1).drop_last() =~= nodes.take(k));
    assert(MergedCSTNode::views(nodes.take(k)).push(nodes[k]@).drop_last() =~= MergedCSTNode::views(
        nodes.take(k),
    ));
}

impl MergedCSTNode {
    /// The subtree at `id` of the arena as a merged node, unchanged.
    pub fn from(forest: &Forest, id: usize) -> (node: MergedCSTNode)
        requires
            wf(forest@),
            id < forest@.len(),
        ensures
            node@ == merged_from(forest@, id as int),
            sided(node@),
            drawn(node@, forest@),
        decreases id,
    {
        let source = forest.node(id);
        proof {
            lemma_unchanged_renders_source(forest@, id as int);
        }
        match &source.data {
            NodeData::Terminal { value } => MergedCSTNode::Terminal {
                kind: source.kind.clone(),
                value: value.clone(),
                leading_white_space: clone_option_string(&source.leading_white_space),
            },
            NodeData::NonTerminal { children, .. } => {
                let mut merged: Vec<MergedCSTNode> = Vec::new();
                let mut k: usize = 0;
                while k < children.len()
                    invariant
                        k <= children.len(),
                        wf(forest@),
                        id < forest@.len(),
                        children@ == forest@[id as int].children,
                        MergedCSTNode::views(merged@) == merged_from_children(
                            forest@,
                            id as int,
                            k as nat,
                        ),
                    decreases children.len() - k,
                {
                    proof {
                        lemma_child_before(forest@, id as int, k as int);
                    }
                    let child = MergedCSTNode::from(forest, children[k]);
                    proof {
                        lemma_views_push(merged@, child);
                    }
                    merged.push(child);
                    k += 1;
                }
                MergedCSTNode::NonTerminal {
                    kind: source.kind.clone(),
                    children: merged,
                    leading_white_space: clone_option_string(&source.leading_white_space),
                }
            },
        }
    }

    /// Whether the tree holds a conflict.
    pub fn has_conflict(&self) -> (found: bool)
        ensures
            found == conflicted(self@),
        decreases self, 1nat,
    {
        match self {
            MergedCSTNode::Terminal { .. } => false,
            MergedCSTNode::Conflict { .. } => true,
            MergedCSTNode::NonTerminal { children, .. } => Self::any_has_conflict(children),
        }
    }

    fn any_has_conflict(children: &Vec<MergedCSTNode>) -> (found: bool)
        ensures
            found == any_conflicted(MergedCSTNode::views(children@)),
        decreases children, 0nat,
    {
        let mut found = false;
        let mut k: usize = 0;
        proof {
            assert(children@.take(0) =~= Seq::<MergedCSTNode>::empty());
        }
        while k < children.len()
            invariant
                k <= children.len(),
                found == any_conflicted(MergedCSTNode::views(children@.take(k as int))),
            decreases children.len() - k,
        {
            proof {
                lemma_views_take(children@, k as int);
            }
            if children[k].has_conflict() {
                found = true;
            }
            k += 1;
        }
        proof {
            assert(children@.take(k as int) =~= children@);
        }
        found
    }

    /// The white space that stands before the node, if it has any.
    pub fn leading_white_space(&self) -> (space: &Option<String>)
        ensures
            leading_of(self@) == (match option_string_view(*space) {
                Some(text) => text,
                None => Seq::empty(),
            }),
    {
        match self {
            MergedCSTNode::Terminal { leading_white_space, .. } => leading_white_space,
            MergedCSTNode::NonTerminal { leading_white_space, .. } => leading_white_space,
            MergedCSTNode::Conflict { .. } => &None,
        }
    }

    fn render_all(children: &Vec<MergedCSTNode>) -> (text: String)
        ensures
            text@ == rendered_children(MergedCSTNode::views(children@)),
        decreases children, 0nat,
    {
        let mut text = String::new();
        let mut k: usize = 0;
        proof {
            assert(children@.take(0) =~= Seq::<MergedCSTNode>::empty());
        }
        while k < children.len()
            invariant
                k <= children.len(),
                text@ == rendered_children(MergedCSTNode::views(children@.take(k as int))),
            decreases children.len() - k,
        {
            proof {
                lemma_views_take(children@, k as int);
            }
            let child = &children[k];
            match child.leading_white_space() {
                Some(space) => {
                    text.append(space.as_str());
                },
                None => {},
            }
            let part = child.to_string();
            text.append(part.as_str());
            k += 1;
        }
        proof {
            assert(children@.take(k as int) =~= children@);
        }
        text
    }

    /// The text of the tree.
    pub fn to_string(&self) -> (text: String)
        ensures
            text@ == rendered(self@),
        decreases self, 1nat,
    {
        match self {
            MergedCSTNode::Terminal { value, .. } => value.clone(),
            MergedCSTNode::NonTerminal { children, .. } => Self::render_all(children),
            MergedCSTNode::Conflict { left, right } => {
                let mut text = String::new();
                proof {
                    reveal_strlit("\n<<<<<<<\n");
                    reveal_strlit("\n=======\n");
                    reveal_strlit("\n>>>>>>>\n");
                }
                text.append("\n<<<<<<<\n");
                match left {
                    Some(side) => {
                        let part = side.to_string();
                        text.append(part.as_str());
                    },
                    None => {},
                }
                text.append("\n=======\n");
                match right {
                    Some(side) => {
                        let part = side.to_string();
                        text.append(part.as_str());
                    },
                    None => {},
                }
                text.append("\n>>>>>>>\n");
                proof {
                    assert(text@ =~= rendered(self@));
                }
                text
            },
        }
    }
}

} // verus!

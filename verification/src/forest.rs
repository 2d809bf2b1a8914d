use vstd::prelude::*;
use vstd::string::*;
use crate::model::{CSTNode, Delimiters, NonTerminal, Point, Terminal};

verus! {

/// What a node of the arena holds, as mathematical values.
pub struct NodeView {
    pub kind: Seq<char>,
    pub leading_white_space: Option<Seq<char>>,
    pub is_terminal: bool,
    pub value: Seq<char>,
    pub children: Seq<usize>,
    pub are_children_unordered: bool,
    pub identifier: Option<Seq<Seq<char>>>,
    pub delimiters: Option<(Seq<char>, Seq<char>)>,
    pub depth: usize,
    pub first: usize,
    pub start_position: Point,
    pub end_position: Point,
}

/// What distinguishes a leaf from an interior node.
#[derive(Debug)]
pub enum NodeData {
    Terminal { value: String },
    NonTerminal {
        children: Vec<usize>,
        are_children_unordered: bool,
        identifier: Option<Vec<String>>,
        delimiters: Option<Delimiters>,
    },
}

/// A node of the arena. Its identity is its index; its children are indices of
/// nodes stored before it. `first` is the smallest index of its subtree and
/// `depth` its distance from the root of its tree; the two positions say
/// where the node begins and ends in its source.
#[derive(Debug)]
pub struct Node {
    pub kind: String,
    pub leading_white_space: Option<String>,
    pub data: NodeData,
    pub depth: usize,
    pub first: usize,
    pub start_position: Point,
    pub end_position: Point,
}

/// A flat arena that holds the nodes of every tree of one run.
#[derive(Debug)]
pub struct Forest {
    pub nodes: Vec<Node>,
}

/// The strings of a list as sequences of characters.
pub open spec fn strings_view(v: Seq<String>) -> Seq<Seq<char>> {
    v.map_values(|s: String| s@)
}

/// A string that may be missing as a sequence of characters.
pub open spec fn option_string_view(v: Option<String>) -> Option<Seq<char>> {
    match v {
        Some(s) => Some(s@),
        None => None,
    }
}

/// A list of strings that may be missing as sequences of characters.
pub open spec fn option_strings_view(v: Option<Vec<String>>) -> Option<Seq<Seq<char>>> {
    match v {
        Some(s) => Some(strings_view(s@)),
        None => None,
    }
}

/// A pair of delimiters that may be missing as sequences of characters.
pub open spec fn option_delimiters_view(v: Option<Delimiters>) -> Option<(Seq<char>, Seq<char>)> {
    match v {
        Some(d) => Some((d.start@, d.end@)),
        None => None,
    }
}

impl View for Node {
    type V = NodeView;

    open spec fn view(&self) -> NodeView {
        match self.data {
            NodeData::Terminal { value } => NodeView {
                kind: self.kind@,
                leading_white_space: option_string_view(self.leading_white_space),
                is_terminal: true,
                value: value@,
                children: Seq::empty(),
                are_children_unordered: false,
                identifier: None,
                delimiters: None,
                depth: self.depth,
                first: self.first,
                start_position: self.start_position,
                end_position: self.end_position,
            },
            NodeData::NonTerminal { children, are_children_unordered, identifier, delimiters } => NodeView {
                kind: self.kind@,
                leading_white_space: option_string_view(self.leading_white_space),
                is_terminal: false,
                value: Seq::empty(),
                children: children@,
                are_children_unordered,
                identifier: option_strings_view(identifier),
                delimiters: option_delimiters_view(delimiters),
                depth: self.depth,
                first: self.first,
                start_position: self.start_position,
                end_position: self.end_position,
            },
        }
    }
}

impl View for Forest {
    type V = Seq<NodeView>;

    open spec fn view(&self) -> Seq<NodeView> {
        self.nodes@.map_values(|n: Node| n@)
    }
}

/// The nodes `children` are laid out from index `first` on, one subtree
/// directly behind the other, each at depth `depth + 1` and before `bound`.
#[verifier::opaque]
pub open spec fn laid_out(
    f: Seq<NodeView>,
    children: Seq<usize>,
    first: int,
    depth: int,
    bound: int,
) -> bool {
    forall|k: int|
        0 <= k < children.len() ==> {
            let c = #[trigger] children[k];
            &&& c < bound
            &&& f[c as int].depth == depth + 1
            &&& f[c as int].first <= c
            &&& (if k == 0 {
                first
            } else {
                children[k - 1] + 1
            }) == f[c as int].first
        }
}

/// Node `i` lies directly behind its subtree, which takes the indices from
/// `first` on: the subtrees of its children follow each other without a gap,
/// each child one level deeper than the node.
pub open spec fn node_wf(f: Seq<NodeView>, i: int) -> bool {
    let n = f[i];
    &&& n.first <= i
    &&& n.children.len() <= i
    &&& n.is_terminal ==> n.children.len() == 0
    &&& n.children.len() == 0 ==> n.first == i
    &&& n.children.len() > 0 ==> n.children.last() + 1 == i
    &&& laid_out(f, n.children, n.first as int, n.depth as int, i)
}

/// Every node of the arena is well formed and the arena is not larger than
/// what a 32-bit index can address.
#[verifier::opaque]
pub open spec fn wf(f: Seq<NodeView>) -> bool {
    &&& f.len() <= u32::MAX
    &&& forall|i: int| 0 <= i < f.len() ==> #[trigger] node_wf(f, i)
}

/// The view of the arena node that stands for the terminal `t`.
pub open spec fn terminal_view(t: Terminal, first: nat, depth: nat) -> NodeView {
    NodeView {
        kind: t.kind@,
        leading_white_space: option_string_view(t.leading_white_space),
        is_terminal: true,
        value: t.value@,
        children: Seq::empty(),
        are_children_unordered: false,
        identifier: None,
        delimiters: None,
        depth: depth as usize,
        first: first as usize,
        start_position: t.start_position,
        end_position: t.end_position,
    }
}

/// The view of the arena node that stands for `nt`, once its children are
/// stored under the indices `children`.
pub open spec fn non_terminal_view(
    nt: NonTerminal,
    children: Seq<usize>,
    first: nat,
    depth: nat,
) -> NodeView {
    NodeView {
        kind: nt.kind@,
        leading_white_space: option_string_view(nt.leading_white_space),
        is_terminal: false,
        value: Seq::empty(),
        children,
        are_children_unordered: nt.are_children_unordered,
        identifier: option_strings_view(nt.identifier),
        delimiters: option_delimiters_view(nt.delimiters),
        depth: depth as usize,
        first: first as usize,
        start_position: nt.start_position,
        end_position: nt.end_position,
    }
}

/// The view of the arena node that stands for the root of `tree`, stored at
/// `offset + tree.size() - 1`.
pub open spec fn root_view(tree: CSTNode, offset: nat, depth: nat) -> NodeView {
    match tree {
        CSTNode::Terminal(t) => terminal_view(t, offset, depth),
        CSTNode::NonTerminal(nt) => non_terminal_view(
            nt,
            child_ids(nt.children@, offset),
            offset,
            depth,
        ),
    }
}

/// The indices that the roots of `trees` get when the trees are laid out one
/// after the other from `offset` on.
pub open spec fn child_ids(trees: Seq<CSTNode>, offset: nat) -> Seq<usize>
    decreases trees.len(),
{
    if trees.len() == 0 {
        Seq::empty()
    } else {
        child_ids(trees.drop_last(), offset).push(
            (offset + CSTNode::size_of_all(trees) - 1) as usize,
        )
    }
}

/// The nodes of `tree` in the order in which the arena stores them: the
/// subtrees of the children from left to right, then the node itself.
pub open spec fn flatten(tree: CSTNode, offset: nat, depth: nat) -> Seq<NodeView>
    decreases tree,
{
    match tree {
        CSTNode::Terminal(_) => seq![root_view(tree, offset, depth)],
        CSTNode::NonTerminal(nt) => flatten_all(nt.children@, offset, depth + 1).push(
            root_view(tree, offset, depth),
        ),
    }
}

/// The nodes of several trees laid out one after the other.
pub open spec fn flatten_all(trees: Seq<CSTNode>, offset: nat, depth: nat) -> Seq<NodeView>
    decreases trees,
{
    if trees.len() == 0 {
        Seq::empty()
    } else {
        let init = flatten_all(trees.drop_last(), offset, depth);
        init + flatten(trees.last(), offset + init.len(), depth)
    }
}

/// The text of the subtree at `id`: the values of its terminals from left to
/// right, without white space.
pub open spec fn contents(f: Seq<NodeView>, id: int) -> Seq<char>
    decreases id, f[id].children.len() + 1,
{
    if id < 0 || id >= f.len() {
        Seq::empty()
    } else if f[id].is_terminal {
        f[id].value
    } else {
        contents_of_children(f, id, f[id].children.len())
    }
}

/// The text of the first `upto` children of node `id`.
pub open spec fn contents_of_children(f: Seq<NodeView>, id: int, upto: nat) -> Seq<char>
    decreases id, upto,
{
    if upto == 0 || upto > f[id].children.len() {
        Seq::empty()
    } else {
        let c = f[id].children[upto - 1];
        contents_of_children(f, id, (upto - 1) as nat) + (if c < id {
            contents(f, c as int)
        } else {
            Seq::empty()
        })
    }
}

/// A tree takes as many nodes of the arena as it has nodes.
pub proof fn lemma_flatten_len(tree: CSTNode, offset: nat, depth: nat)
    ensures
        flatten(tree, offset, depth).len() == tree.size(),
    decreases tree,
{
    match tree {
        CSTNode::Terminal(_) => {},
        CSTNode::NonTerminal(nt) => {
            lemma_flatten_all_len(nt.children@, offset, depth + 1);
        },
    }
}

/// Trees laid out one after the other take as many nodes of the arena as
/// they have nodes together.
pub proof fn lemma_flatten_all_len(trees: Seq<CSTNode>, offset: nat, depth: nat)
    ensures
        flatten_all(trees, offset, depth).len() == CSTNode::size_of_all(trees),
    decreases trees,
{
    if trees.len() > 0 {
        lemma_flatten_all_len(trees.drop_last(), offset, depth);
        let init = flatten_all(trees.drop_last(), offset, depth);
        lemma_flatten_len(trees.last(), offset + init.len(), depth);
    }
}

/// A copy of a string that may be missing.
pub(crate) fn clone_option_string(v: &Option<String>) -> (r: Option<String>)
    ensures
        option_string_view(r) == option_string_view(*v),
{
    match v {
        Some(s) => Some(s.clone()),
        None => None,
    }
}

/// A copy of a list of strings.
pub(crate) fn clone_strings(v: &Vec<String>) -> (r: Vec<String>)
    ensures
        strings_view(r@) == strings_view(v@),
{
    let mut r: Vec<String> = Vec::new();
    let mut i: usize = 0;
    while i < v.len()
        invariant
            i <= v.len(),
            r@.len() == i,
            forall|k: int| 0 <= k < i ==> r@[k]@ == v@[k]@,
        decreases v.len() - i,
    {
        r.push(v[i].clone());
        i += 1;
    }
    assert(strings_view(r@) =~= strings_view(v@));
    r
}

impl Node {
    /// Whether the node is a leaf.
    pub fn is_terminal(&self) -> (leaf: bool)
        ensures
            leaf == self@.is_terminal,
    {
        match &self.data {
            NodeData::Terminal { .. } => true,
            NodeData::NonTerminal { .. } => false,
        }
    }

    /// The indices of the children of an interior node.
    pub fn children(&self) -> (children: &Vec<usize>)
        requires
            !self@.is_terminal,
        ensures
            children@ == self@.children,
    {
        match &self.data {
            NodeData::NonTerminal { children, .. } => children,
            NodeData::Terminal { .. } => vstd::pervasive::unreached(),
        }
    }

    /// Whether the node carries a label: every terminal does, an interior
    /// node where it has an identifier.
    pub fn has_identifier(&self) -> (has: bool)
        ensures
            has == (self@.is_terminal || self@.identifier.is_some()),
    {
        match &self.data {
            NodeData::Terminal { .. } => true,
            NodeData::NonTerminal { identifier, .. } => identifier.is_some(),
        }
    }

    /// Whether the children of the node may stand in any order.
    pub fn are_children_unordered(&self) -> (unordered: bool)
        ensures
            unordered == self@.are_children_unordered,
    {
        match &self.data {
            NodeData::NonTerminal { are_children_unordered, .. } => *are_children_unordered,
            NodeData::Terminal { .. } => false,
        }
    }
}

impl Forest {
    /// An arena without nodes.
    pub fn new() -> (f: Forest)
        ensures
            f@.len() == 0,
            wf(f@),
    {
        reveal(wf);
        Forest { nodes: Vec::new() }
    }

    /// The number of nodes.
    pub fn len(&self) -> (n: usize)
        ensures
            n == self@.len(),
    {
        self.nodes.len()
    }

    /// The node with index `id`.
    pub fn node(&self, id: usize) -> (n: &Node)
        requires
            id < self@.len(),
        ensures
            n@ == self@[id as int],
    {
        &self.nodes[id]
    }

    /// Whether the terminals `a` and `b` hold the same text.
    pub fn terminal_values_equal(&self, a: usize, b: usize) -> (same: bool)
        requires
            a < self@.len(),
            b < self@.len(),
            self@[a as int].is_terminal,
            self@[b as int].is_terminal,
        ensures
            same == (self@[a as int].value == self@[b as int].value),
    {
        match (&self.node(a).data, &self.node(b).data) {
            (NodeData::Terminal { value: x }, NodeData::Terminal { value: y }) => *x == *y,
            _ => false,
        }
    }

    /// The text of the subtree at `id`, without white space.
    pub fn contents(&self, id: usize) -> (text: String)
        requires
            wf(self@),
            id < self@.len(),
        ensures
            text@ == contents(self@, id as int),
        decreases id,
    {
        let node = self.node(id);
        match &node.data {
            NodeData::Terminal { value } => value.clone(),
            NodeData::NonTerminal { children, .. } => {
                let mut text = String::new();
                let mut k: usize = 0;
                while k < children.len()
                    invariant
                        k <= children.len(),
                        wf(self@),
                        id < self@.len(),
                        children@ == self@[id as int].children,
                        text@ == contents_of_children(self@, id as int, k as nat),
                    decreases children.len() - k,
                {
                    proof {
                        lemma_child_before(self@, id as int, k as int);
                    }
                    let part = self.contents(children[k]);
                    text.append(part.as_str());
                    k += 1;
                }
                text
            },
        }
    }

    /// Stores `tree` behind the nodes that are there and returns the index of
    /// its root, which gets depth 0.
    pub fn insert(&mut self, tree: &CSTNode) -> (root: usize)
        requires
            wf(old(self)@),
            old(self)@.len() + tree.size() <= u32::MAX,
        ensures
            wf(final(self)@),
            final(self)@ == old(self)@ + flatten(*tree, old(self)@.len(), 0),
            final(self)@.len() == old(self)@.len() + tree.size(),
            tree.size() >= 1,
            root == old(self)@.len() + tree.size() - 1,
            final(self)@[root as int] == root_view(*tree, old(self)@.len(), 0),
    {
        self.insert_at(tree, 0)
    }

    fn insert_at(&mut self, tree: &CSTNode, depth: usize) -> (root: usize)
        requires
            wf(old(self)@),
            old(self)@.len() + tree.size() <= u32::MAX,
            depth + tree.size() <= u32::MAX,
        ensures
            wf(final(self)@),
            final(self)@ == old(self)@ + flatten(*tree, old(self)@.len(), depth as nat),
            final(self)@.len() == old(self)@.len() + tree.size(),
            root == old(self)@.len() + tree.size() - 1,
            final(self)@[root as int] == root_view(*tree, old(self)@.len(), depth as nat),
        decreases *tree, 1int,
    {
        let offset = self.nodes.len();
        match tree {
            CSTNode::Terminal(t) => {
                let id = self.push_terminal(t, depth);
                proof {
                    assert(self@ =~= old(self)@ + flatten(*tree, old(self)@.len(), depth as nat));
                }
                id
            },
            CSTNode::NonTerminal(nt) => {
                let children = self.insert_children(nt, depth);
                let id = self.push_non_terminal(nt, children, depth, offset);
                proof {
                    assert(self@ =~= old(self)@ + flatten(*tree, old(self)@.len(), depth as nat));
                }
                id
            },
        }
    }

    fn insert_children(&mut self, nt: &NonTerminal, depth: usize) -> (children: Vec<usize>)
        requires
            wf(old(self)@),
            old(self)@.len() + CSTNode::NonTerminal(*nt).size() <= u32::MAX,
            depth + CSTNode::NonTerminal(*nt).size() <= u32::MAX,
        ensures
            wf(final(self)@),
            final(self)@ == old(self)@ + flatten_all(
                nt.children@,
                old(self)@.len(),
                (depth + 1) as nat,
            ),
            final(self)@.len() == old(self)@.len() + CSTNode::size_of_all(nt.children@),
            children@ == child_ids(nt.children@, old(self)@.len()),
            children@.len() + old(self)@.len() <= final(self)@.len(),
            children@.len() == 0 ==> final(self)@.len() == old(self)@.len(),
            children@.len() > 0 ==> children@.last() + 1 == final(self)@.len(),
            laid_out(
                final(self)@,
                children@,
                old(self)@.len() as int,
                depth as int,
                final(self)@.len() as int,
            ),
        decreases *nt, 0int,
    {
        let offset = self.nodes.len();
        let mut children: Vec<usize> = Vec::new();
        let mut k: usize = 0;
        proof {
            lemma_nothing_laid_out(self@, nt.children@, offset as int, depth as int);
            assert(self@ =~= old(self)@ + Seq::<NodeView>::empty());
        }
        while k < nt.children.len()
            invariant
                k <= nt.children.len(),
                wf(self@),
                offset == old(self)@.len(),
                self@ == old(self)@ + flatten_all(
                    nt.children@.take(k as int),
                    offset as nat,
                    (depth + 1) as nat,
                ),
                self@.len() == offset + CSTNode::size_of_all(nt.children@.take(k as int)),
                children@ == child_ids(nt.children@.take(k as int), offset as nat),
                children@.len() == k,
                k + offset <= self@.len(),
                laid_out(self@, children@, offset as int, depth as int, self@.len() as int),
                k > 0 ==> children@[k - 1] + 1 == self@.len(),
                k == 0 ==> self@.len() == offset,
                offset + CSTNode::NonTerminal(*nt).size() <= u32::MAX,
                depth + CSTNode::NonTerminal(*nt).size() <= u32::MAX,
            decreases nt.children.len() - k,
        {
            let ghost before = self@;
            let ghost ids = children@;
            let ghost prefix = nt.children@.take(k as int);
            let ghost next = nt.children@.take(k + 1);
            proof {
                assert(next.drop_last() =~= prefix);
                assert(next.last() == nt.children@[k as int]);
                lemma_size_of_all_take(nt.children@, k + 1);
                lemma_flatten_all_len(prefix, offset as nat, (depth + 1) as nat);
            }
            let id = self.insert_at(&nt.children[k], depth + 1);
            children.push(id);
            proof {
                let added = flatten(nt.children@[k as int], before.len(), (depth + 1) as nat);
                assert(self@ == before + added);
                assert(flatten_all(next, offset as nat, (depth + 1) as nat) == flatten_all(
                    prefix,
                    offset as nat,
                    (depth + 1) as nat,
                ) + added);
                assert(self@ =~= old(self)@ + flatten_all(
                    next,
                    offset as nat,
                    (depth + 1) as nat,
                ));
                assert(children@ =~= child_ids(next, offset as nat));
                lemma_laid_out_push(before, self@, ids, offset as int, depth as int, id);
            }
            k += 1;
        }
        proof {
            assert(nt.children@.take(k as int) =~= nt.children@);
        }
        children
    }

    fn push_terminal(&mut self, t: &Terminal, depth: usize) -> (id: usize)
        requires
            wf(old(self)@),
            old(self)@.len() < u32::MAX,
        ensures
            wf(final(self)@),
            final(self)@ == old(self)@.push(terminal_view(*t, old(self)@.len(), depth as nat)),
            id == old(self)@.len(),
    {
        let id = self.nodes.len();
        let node = Node {
            kind: t.kind.clone(),
            leading_white_space: clone_option_string(&t.leading_white_space),
            data: NodeData::Terminal { value: t.value.clone() },
            depth,
            first: id,
            start_position: t.start_position,
            end_position: t.end_position,
        };
        proof {
            assert(node@ == terminal_view(*t, id as nat, depth as nat));
            assert(laid_out(
                self@.push(node@),
                node@.children,
                id as int,
                depth as int,
                id as int,
            )) by {
                reveal(laid_out);
            }
            lemma_wf_push(self@, node@);
        }
        self.push_node(node);
        id
    }

    fn push_non_terminal(
        &mut self,
        nt: &NonTerminal,
        children: Vec<usize>,
        depth: usize,
        first: usize,
    ) -> (id: usize)
        requires
            wf(old(self)@),
            old(self)@.len() < u32::MAX,
            first <= old(self)@.len(),
            children@.len() <= old(self)@.len(),
            children@.len() == 0 ==> first == old(self)@.len(),
            children@.len() > 0 ==> children@.last() + 1 == old(self)@.len(),
            laid_out(old(self)@, children@, first as int, depth as int, old(self)@.len() as int),
        ensures
            wf(final(self)@),
            final(self)@ == old(self)@.push(
                non_terminal_view(*nt, children@, first as nat, depth as nat),
            ),
            id == old(self)@.len(),
    {
        let id = self.nodes.len();
        let ghost ids = children@;
        let node = Node {
            kind: nt.kind.clone(),
            leading_white_space: clone_option_string(&nt.leading_white_space),
            data: NodeData::NonTerminal {
                children,
                are_children_unordered: nt.are_children_unordered,
                identifier: match &nt.identifier {
                    Some(parts) => Some(clone_strings(parts)),
                    None => None,
                },
                delimiters: match &nt.delimiters {
                    Some(d) => Some(Delimiters { start: d.start.clone(), end: d.end.clone() }),
                    None => None,
                },
            },
            depth,
            first,
            start_position: nt.start_position,
            end_position: nt.end_position,
        };
        proof {
            assert(node@ == non_terminal_view(*nt, ids, first as nat, depth as nat));
            lemma_laid_out_stable(
                self@,
                self@.push(node@),
                ids,
                first as int,
                depth as int,
                id as int,
            );
            lemma_wf_push(self@, node@);
        }
        self.push_node(node);
        id
    }

    fn push_node(&mut self, node: Node)
        ensures
            final(self)@ == old(self)@.push(node@),
    {
        self.nodes.push(node);
        assert(self@ =~= old(self)@.push(node@));
    }
}

/// In a well-formed arena a child is stored before its parent, one level
/// deeper, and behind the child that precedes it.
pub proof fn lemma_child_before(f: Seq<NodeView>, id: int, k: int)
    requires
        wf(f),
        0 <= id < f.len(),
        0 <= k < f[id].children.len(),
    ensures
        !f[id].is_terminal,
        f[id].children.len() <= id,
        f[id].children[k] < id,
        f[f[id].children[k] as int].depth == f[id].depth + 1,
        f[f[id].children[k] as int].first <= f[id].children[k],
        f[id].first <= f[f[id].children[k] as int].first,
        k > 0 ==> f[id].children[k - 1] + 1 == f[f[id].children[k] as int].first,
        k == 0 ==> f[id].first == f[f[id].children[k] as int].first,
        k == f[id].children.len() - 1 ==> f[id].children[k] + 1 == id,
{
    reveal(wf);
    reveal(laid_out);
    assert(node_wf(f, id));
    let c = f[id].children[k];
    lemma_children_increase(f, id, k);
}

/// The children of a node are stored at or behind the node's first index.
proof fn lemma_children_increase(f: Seq<NodeView>, id: int, k: int)
    requires
        wf(f),
        0 <= id < f.len(),
        0 <= k < f[id].children.len(),
    ensures
        f[id].first <= f[f[id].children[k] as int].first,
    decreases k,
{
    reveal(wf);
    reveal(laid_out);
    assert(node_wf(f, id));
    let c = f[id].children[k];
    if k > 0 {
        lemma_children_increase(f, id, k - 1);
        let p = f[id].children[k - 1];
        assert(f[p as int].first <= p);
    }
}

/// Appending a well-formed node keeps the arena well formed.
proof fn lemma_wf_push(f: Seq<NodeView>, n: NodeView)
    requires
        wf(f),
        f.len() < u32::MAX,
        n.first <= f.len(),
        n.children.len() <= f.len(),
        n.is_terminal ==> n.children.len() == 0,
        n.children.len() == 0 ==> n.first == f.len(),
        n.children.len() > 0 ==> n.children.last() + 1 == f.len(),
        laid_out(f.push(n), n.children, n.first as int, n.depth as int, f.len() as int),
    ensures
        wf(f.push(n)),
{
    reveal(wf);
    let g = f.push(n);
    assert forall|i: int| 0 <= i < g.len() implies #[trigger] node_wf(g, i) by {
        if i < f.len() {
            assert(node_wf(f, i));
            lemma_laid_out_stable(
                f,
                g,
                f[i].children,
                f[i].first as int,
                f[i].depth as int,
                i,
            );
        }
    }
}

/// A layout that holds in an arena holds in every arena that extends it.
proof fn lemma_laid_out_stable(
    f: Seq<NodeView>,
    g: Seq<NodeView>,
    children: Seq<usize>,
    first: int,
    depth: int,
    bound: int,
)
    requires
        f.len() <= g.len(),
        forall|i: int| 0 <= i < f.len() ==> f[i] == g[i],
        bound <= f.len(),
        laid_out(f, children, first, depth, bound),
    ensures
        laid_out(g, children, first, depth, bound),
{
    reveal(laid_out);
    assert forall|k: int| 0 <= k < children.len() implies {
        let c = #[trigger] children[k];
        &&& c < bound
        &&& g[c as int].depth == depth + 1
        &&& g[c as int].first <= c
        &&& (if k == 0 {
            first
        } else {
            children[k - 1] + 1
        }) == g[c as int].first
    } by {
        let c = children[k];
        assert(f[c as int] == g[c as int]);
    }
}

/// Before any child is stored, nothing is laid out.
proof fn lemma_nothing_laid_out(f: Seq<NodeView>, trees: Seq<CSTNode>, first: int, depth: int)
    ensures
        laid_out(f, Seq::<usize>::empty(), first, depth, f.len() as int),
        trees.take(0) == Seq::<CSTNode>::empty(),
        flatten_all(trees.take(0), first as nat, (depth + 1) as nat) == Seq::<NodeView>::empty(),
        child_ids(trees.take(0), first as nat) == Seq::<usize>::empty(),
        CSTNode::size_of_all(trees.take(0)) == 0,
{
    reveal(laid_out);
    assert(trees.take(0) =~= Seq::<CSTNode>::empty());
}

/// A layout grows by the node that was stored last.
proof fn lemma_laid_out_push(
    f: Seq<NodeView>,
    g: Seq<NodeView>,
    children: Seq<usize>,
    first: int,
    depth: int,
    c: usize,
)
    requires
        f.len() < g.len(),
        forall|i: int| 0 <= i < f.len() ==> f[i] == g[i],
        laid_out(f, children, first, depth, f.len() as int),
        c == g.len() - 1,
        g[c as int].depth == depth + 1,
        g[c as int].first == f.len(),
        children.len() == 0 ==> f.len() == first,
        children.len() > 0 ==> children.last() + 1 == f.len(),
    ensures
        laid_out(g, children.push(c), first, depth, g.len() as int),
{
    reveal(laid_out);
    let next = children.push(c);
    assert forall|k: int| 0 <= k < next.len() implies {
        let x = #[trigger] next[k];
        &&& x < g.len()
        &&& g[x as int].depth == depth + 1
        &&& g[x as int].first <= x
        &&& (if k == 0 {
            first
        } else {
            next[k - 1] + 1
        }) == g[x as int].first
    } by {
        if k < children.len() {
            let x = children[k];
            assert(f[x as int] == g[x as int]);
        }
    }
}

/// The first trees of a sequence have no more nodes than all of them, and
/// one tree more adds its nodes.
proof fn lemma_size_of_all_take(trees: Seq<CSTNode>, k: int)
    requires
        0 <= k <= trees.len(),
    ensures
        CSTNode::size_of_all(trees.take(k)) <= CSTNode::size_of_all(trees),
        k > 0 ==> CSTNode::size_of_all(trees.take(k)) == CSTNode::size_of_all(trees.take(k - 1))
            + trees[k - 1].size(),
    decreases trees.len(),
{
    if k > 0 {
        assert(trees.take(k).drop_last() =~= trees.take(k - 1));
    }
    if k == trees.len() {
        assert(trees.take(k) =~= trees);
    } else {
        lemma_size_of_all_take(trees.drop_last(), k);
        assert(trees.drop_last().take(k) =~= trees.take(k));
    }
}

} // verus!

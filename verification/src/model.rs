use vstd::prelude::*;

verus! {

/// The languages whose files can be merged.
#[derive(Clone, Copy, Debug, PartialEq, Eq, Hash)]
pub enum Language {
    Java,
    CSharp,
}

/// A position in a source file.
#[derive(Clone, Copy, Debug, PartialEq, Eq, Hash, Default)]
pub struct Point {
    pub row: usize,
    pub column: usize,
}

/// The pair of lexemes that opens and closes a block.
#[derive(Clone, Debug, PartialEq, Eq, Hash, Default)]
pub struct Delimiters {
    pub start: String,
    pub end: String,
}

/// A leaf of a concrete syntax tree: one lexeme of the source.
#[derive(Clone, Debug, PartialEq, Eq, Hash, Default)]
pub struct Terminal {
    pub kind: String,
    pub value: String,
    pub start_position: Point,
    pub end_position: Point,
    pub leading_white_space: Option<String>,
}

/// An interior node of a concrete syntax tree.
#[derive(Debug, PartialEq, Eq, Hash, Default)]
pub struct NonTerminal {
    pub kind: String,
    pub children: Vec<CSTNode>,
    pub start_position: Point,
    pub end_position: Point,
    pub leading_white_space: Option<String>,
    pub are_children_unordered: bool,
    pub identifier: Option<Vec<String>>,
    pub delimiters: Option<Delimiters>,
}

/// A concrete syntax tree as a parser hands it over.
#[derive(Debug, PartialEq, Eq, Hash)]
pub enum CSTNode {
    Terminal(Terminal),
    NonTerminal(NonTerminal),
}

/// A syntax tree as a mathematical value.
pub enum SyntaxTree {
    Terminal {
        kind: Seq<char>,
        value: Seq<char>,
        start_position: Point,
        end_position: Point,
        leading_white_space: Option<Seq<char>>,
    },
    NonTerminal {
        kind: Seq<char>,
        children: Seq<SyntaxTree>,
        start_position: Point,
        end_position: Point,
        leading_white_space: Option<Seq<char>>,
        are_children_unordered: bool,
        identifier: Option<Seq<Seq<char>>>,
        delimiters: Option<(Seq<char>, Seq<char>)>,
    },
}

impl View for CSTNode {
    type V = SyntaxTree;

    open spec fn view(&self) -> SyntaxTree
        decreases self,
    {
        match self {
            CSTNode::Terminal(t) => SyntaxTree::Terminal {
                kind: t.kind@,
                value: t.value@,
                start_position: t.start_position,
                end_position: t.end_position,
                leading_white_space: match t.leading_white_space {
                    Some(space) => Some(space@),
                    None => None,
                },
            },
            CSTNode::NonTerminal(nt) => SyntaxTree::NonTerminal {
                kind: nt.kind@,
                children: CSTNode::views(nt.children@),
                start_position: nt.start_position,
                end_position: nt.end_position,
                leading_white_space: match nt.leading_white_space {
                    Some(space) => Some(space@),
                    None => None,
                },
                are_children_unordered: nt.are_children_unordered,
                identifier: match nt.identifier {
                    Some(parts) => Some(parts@.map_values(|s: String| s@)),
                    None => None,
                },
                delimiters: match nt.delimiters {
                    Some(pair) => Some((pair.start@, pair.end@)),
                    None => None,
                },
            },
        }
    }
}

impl CSTNode {
    /// The views of a sequence of trees.
    pub open spec fn views(trees: Seq<CSTNode>) -> Seq<SyntaxTree>
        decreases trees,
    {
        if trees.len() == 0 {
            Seq::empty()
        } else {
            Self::views(trees.drop_last()).push(trees.last()@)
        }
    }

    /// Number of nodes of the tree.
    pub open spec fn size(self) -> nat
        decreases self,
    {
        match self {
            CSTNode::Terminal(_) => 1,
            CSTNode::NonTerminal(nt) => 1 + Self::size_of_all(nt.children@),
        }
    }

    /// Number of nodes of a sequence of trees.
    pub open spec fn size_of_all(trees: Seq<CSTNode>) -> nat
        decreases trees,
    {
        if trees.len() == 0 {
            0
        } else {
            Self::size_of_all(trees.drop_last()) + trees.last().size()
        }
    }
}

impl CSTNode {
    /// The number of nodes of the tree, where it is at most `limit`.
    pub fn size_within(&self, limit: usize) -> (count: Option<usize>)
        ensures
            count == (if self.size() <= limit {
                Some(self.size() as usize)
            } else {
                None
            }),
        decreases self, 1nat,
    {
        if limit == 0 {
            return None;
        }
        match self {
            CSTNode::Terminal(_) => Some(1),
            CSTNode::NonTerminal(nt) => match Self::sizes_within(&nt.children, limit - 1) {
                Some(below) => Some(below + 1),
                None => None,
            },
        }
    }

    fn sizes_within(trees: &Vec<CSTNode>, limit: usize) -> (count: Option<usize>)
        ensures
            count == (if Self::size_of_all(trees@) <= limit {
                Some(Self::size_of_all(trees@) as usize)
            } else {
                None
            }),
        decreases trees, 0nat,
    {
        let mut total: usize = 0;
        let mut k: usize = 0;
        proof {
            assert(trees@.take(0) =~= Seq::<CSTNode>::empty());
        }
        while k < trees.len()
            invariant
                k <= trees.len(),
                total == Self::size_of_all(trees@.take(k as int)),
                total <= limit,
            decreases trees.len() - k,
        {
            proof {
                assert(trees@.take(k + 1).drop_last() =~= trees@.take(k as int));
                Self::lemma_sizes_grow(trees@, k + 1);
            }
            match trees[k].size_within(limit - total) {
                Some(size) => {
                    total = total + size;
                },
                None => {
                    return None;
                },
            }
            k += 1;
        }
        proof {
            assert(trees@.take(k as int) =~= trees@);
        }
        Some(total)
    }

    /// The trees up to an index have no more nodes than all of them.
    proof fn lemma_sizes_grow(trees: Seq<CSTNode>, k: int)
        requires
            0 <= k <= trees.len(),
        ensures
            Self::size_of_all(trees.take(k)) <= Self::size_of_all(trees),
        decreases trees.len(),
    {
        if k == trees.len() {
            assert(trees.take(k) =~= trees);
        } else {
            Self::lemma_sizes_grow(trees.drop_last(), k);
            assert(trees.drop_last().take(k) =~= trees.take(k));
        }
    }
}

} // verus!

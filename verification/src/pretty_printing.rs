use vstd::prelude::*;
use vstd::string::*;
use vstd::utf8::*;

verus! {

/// The revision that a clean node was taken from.
#[derive(Copy, Clone, Debug, Eq, PartialEq)]
pub enum Source {
    Base,
    Left,
    Right,
}

/// The texts of the three revisions.
pub struct SourceCodes<'a> {
    pub base: &'a str,
    pub left: &'a str,
    pub right: &'a str,
}

impl Source {
    /// The text of the revision that `self` names.
    pub fn select<'a>(&self, sources: &SourceCodes<'a>) -> (text: &'a str)
        ensures
            text == (match self {
                Source::Base => sources.base,
                Source::Left => sources.left,
                Source::Right => sources.right,
            }),
    {
        match self {
            Source::Base => sources.base,
            Source::Left => sources.left,
            Source::Right => sources.right,
        }
    }
}

impl<'a> SourceCodes<'a> {
    /// The number of bytes of the three texts together.
    pub fn total_len(&self) -> (total: usize)
        requires
            self.base.spec_bytes().len() + self.left.spec_bytes().len()
                + self.right.spec_bytes().len() <= usize::MAX,
        ensures
            total == self.base.spec_bytes().len() + self.left.spec_bytes().len()
                + self.right.spec_bytes().len(),
    {
        self.base.len() + self.left.len() + self.right.len()
    }
}

/// A node of a merged list: a node taken over from one revision, or a
/// conflict between a node of left and a node of right.
pub enum MergedCstNode<'a, T: PrettyPrintableNode> {
    Clean(Source, &'a T),
    Conflict(Option<&'a T>, Option<&'a T>),
}

/// The characters that the bytes `from..to` of `src` spell.
pub open spec fn text_between(src: &str, from: int, to: int) -> Seq<char> {
    decode_utf8(src.spec_bytes().subrange(from, to))
}

/// The bytes `from..to` of `src` begin and end at a character.
pub open spec fn is_slice_of(src: &str, from: int, to: int) -> bool {
    &&& 0 <= from <= to <= src.spec_bytes().len()
    &&& is_char_boundary(src.spec_bytes(), from)
    &&& is_char_boundary(src.spec_bytes(), to)
}

/// The part of `src` between the bytes `from` and `to`.
pub fn slice<'a>(src: &'a str, from: usize, to: usize) -> (part: &'a str)
    requires
        is_slice_of(src, from as int, to as int),
    ensures
        part@ == text_between(src, from as int, to as int),
{
    broadcast use {
        encode_utf8_valid_utf8,
        encode_utf8_decode_utf8,
        valid_utf8_split,
        is_char_boundary_start_end_of_seq,
        is_char_boundary_iff_not_is_continuation_byte,
    };

    let ghost bytes = src.spec_bytes();
    let (_, tail) = src.split_at(from);
    proof {
        assert(valid_utf8(bytes));
        assert(tail.spec_bytes() == bytes.subrange(from as int, bytes.len() as int));
        assert(valid_utf8(tail.spec_bytes()));
        let rest = tail.spec_bytes();
        if to < bytes.len() {
            assert(rest[to - from] == bytes[to as int]);
            is_char_boundary_iff_not_is_continuation_byte(bytes, to as int);
            is_char_boundary_iff_not_is_continuation_byte(rest, to - from);
        } else {
            assert(to - from == rest.len());
            is_char_boundary_start_end_of_seq(rest);
        }
        assert(is_char_boundary(rest, to - from));
    }
    let (part, _) = tail.split_at(to - from);
    proof {
        assert(part.spec_bytes() =~= bytes.subrange(from as int, to as int));
    }
    part
}

/// A node that knows where its text and the white space before it lie in
/// the text of its revision.
pub trait PrettyPrintableNode {
    /// The node lies within `src`.
    spec fn lies_in(&self, src: &str) -> bool;

    /// The white space between the sibling before the node and the node.
    spec fn white_space_in(&self, src: &str) -> Option<Seq<char>>;

    /// The text of the node.
    spec fn text_in(&self, src: &str) -> Seq<char>;

    /// The white space between the sibling before the node and the node, if
    /// the node has such a sibling.
    fn trailing_white_space<'a>(&self, src: &'a str) -> (space: Option<&'a str>)
        requires
            self.lies_in(src),
        ensures
            (match space {
                Some(text) => Some(text@),
                None => None,
            }) == self.white_space_in(src),
    ;

    /// The text of the node.
    fn raw_source_code<'a>(&self, src: &'a str) -> (text: &'a str)
        requires
            self.lies_in(src),
        ensures
            text@ == self.text_in(src),
    ;

    /// Appends the white space before the node, if any, and then its text.
    fn write_pretty(&self, src: &str, out: &mut String)
        requires
            self.lies_in(src),
        ensures
            final(out)@ == old(out)@ + written(self.white_space_in(src), self.text_in(src)),
    ;
}

/// What a node writes: its white space, if any, and then its text.
pub open spec fn written(space: Option<Seq<char>>, text: Seq<char>) -> Seq<char> {
    match space {
        Some(s) => s + text,
        None => text,
    }
}

/// Where a node lies in the text of its revision, in bytes: where it begins
/// and ends, and where the sibling before it ends, if there is one.
#[derive(Clone, Copy, Debug, PartialEq, Eq)]
pub struct SourceRange {
    pub previous_end: Option<usize>,
    pub start: usize,
    pub end: usize,
}

impl PrettyPrintableNode for SourceRange {
    open spec fn lies_in(&self, src: &str) -> bool {
        &&& is_slice_of(src, self.start as int, self.end as int)
        &&& match self.previous_end {
            Some(previous) => is_slice_of(src, previous as int, self.start as int),
            None => true,
        }
    }

    open spec fn white_space_in(&self, src: &str) -> Option<Seq<char>> {
        match self.previous_end {
            Some(previous) => Some(text_between(src, previous as int, self.start as int)),
            None => None,
        }
    }

    open spec fn text_in(&self, src: &str) -> Seq<char> {
        text_between(src, self.start as int, self.end as int)
    }

    fn trailing_white_space<'a>(&self, src: &'a str) -> (space: Option<&'a str>) {
        match self.previous_end {
            Some(previous) => Some(slice(src, previous, self.start)),
            None => None,
        }
    }

    fn raw_source_code<'a>(&self, src: &'a str) -> (text: &'a str) {
        slice(src, self.start, self.end)
    }

    fn write_pretty(&self, src: &str, out: &mut String) {
        if let Some(space) = self.trailing_white_space(src) {
            out.append(space);
        }
        out.append(self.raw_source_code(src));
        proof {
            assert(out@ =~= old(out)@ + written(self.white_space_in(src), self.text_in(src)));
        }
    }
}

/// The text of the revision that `source` names.
pub open spec fn selected<'a>(source: Source, sources: SourceCodes<'a>) -> &'a str {
    match source {
        Source::Base => sources.base,
        Source::Left => sources.left,
        Source::Right => sources.right,
    }
}

/// Every node of `node` lies in the text of its revision: a clean node in the
/// one it names, the sides of a conflict in left and in right.
pub open spec fn node_lies_in<T: PrettyPrintableNode>(
    node: MergedCstNode<T>,
    sources: SourceCodes,
) -> bool {
    match node {
        MergedCstNode::Clean(source, current) => current.lies_in(selected(source, sources)),
        MergedCstNode::Conflict(left, right) => {
            &&& left matches Some(l) ==> l.lies_in(sources.left)
            &&& right matches Some(r) ==> r.lies_in(sources.right)
        },
    }
}

/// The line that opens a conflict.
pub open spec fn marker_start() -> Seq<char> {
    "\n<<<<<<<\n"@
}

/// The line between the two sides of a conflict.
pub open spec fn marker_middle() -> Seq<char> {
    "\n=======\n"@
}

/// The line that closes a conflict.
pub open spec fn marker_end() -> Seq<char> {
    "\n>>>>>>>\n"@
}

/// What one node of a merged list prints: a clean node what it writes, a
/// conflict what its sides write between the three marker lines.
pub open spec fn printed_node<T: PrettyPrintableNode>(
    node: MergedCstNode<T>,
    sources: SourceCodes,
) -> Seq<char> {
    match node {
        MergedCstNode::Clean(source, current) => written(
            current.white_space_in(selected(source, sources)),
            current.text_in(selected(source, sources)),
        ),
        MergedCstNode::Conflict(left, right) => marker_start() + (match left {
            Some(l) => written(l.white_space_in(sources.left), l.text_in(sources.left)),
            None => Seq::empty(),
        }) + marker_middle() + (match right {
            Some(r) => written(r.white_space_in(sources.right), r.text_in(sources.right)),
            None => Seq::empty(),
        }) + marker_end(),
    }
}

/// What a merged list prints: what its nodes print, one after the other.
pub open spec fn printed<T: PrettyPrintableNode>(
    tree: Seq<MergedCstNode<T>>,
    sources: SourceCodes,
) -> Seq<char>
    decreases tree.len(),
{
    if tree.len() == 0 {
        Seq::empty()
    } else {
        printed(tree.drop_last(), sources) + printed_node(tree.last(), sources)
    }
}

/// Prints a merged list: clean nodes as they stand in their revision, with
/// the white space before them, and conflicts between marker lines.
pub fn pretty_print_tree<T: PrettyPrintableNode>(
    tree: &[MergedCstNode<T>],
    source_codes: &SourceCodes,
) -> (out: String)
    requires
        forall|k: int| 0 <= k < tree@.len() ==> node_lies_in(#[trigger] tree@[k], *source_codes),
    ensures
        out@ == printed(tree@, *source_codes),
{
    let mut out = String::new();
    let mut k: usize = 0;
    proof {
        assert(tree@.take(0) =~= Seq::<MergedCstNode<T>>::empty());
    }
    while k < tree.len()
        invariant
            k <= tree@.len(),
            forall|i: int| 0 <= i < tree@.len() ==> node_lies_in(#[trigger] tree@[i], *source_codes),
            out@ == printed(tree@.take(k as int), *source_codes),
        decreases tree@.len() - k,
    {
        let ghost before = out@;
        proof {
            assert(tree@.take(k + 1).drop_last() =~= tree@.take(k as int));
            assert(node_lies_in(tree@[k as int], *source_codes));
        }
        match &tree[k] {
            MergedCstNode::Clean(source, current) => {
                current.write_pretty(source.select(source_codes), &mut out);
            },
            MergedCstNode::Conflict(left, right) => {
                out.append("\n<<<<<<<\n");
                if let Some(left) = left {
                    left.write_pretty(source_codes.left, &mut out);
                }
                out.append("\n=======\n");
                if let Some(right) = right {
                    right.write_pretty(source_codes.right, &mut out);
                }
                out.append("\n>>>>>>>\n");
            },
        }
        proof {
            assert(out@ =~= before + printed_node(tree@[k as int], *source_codes));
        }
        k += 1;
    }
    proof {
        assert(tree@.take(k as int) =~= tree@);
    }
    out
}

} // verus!

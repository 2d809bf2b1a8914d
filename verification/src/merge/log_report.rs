use vstd::prelude::*;
use vstd::string::*;
use crate::forest::{wf, Forest, NodeView};

verus! {

/// What a report tells of a node: its kind, its text, and the rows of its
/// source in which it begins and ends.
#[derive(Debug, PartialEq, Eq, Default)]
pub struct NodeSummary {
    pub kind: String,
    pub contents: String,
    pub start_row: usize,
    pub end_row: usize,
}

/// A `NodeSummary` as mathematical values.
pub struct Summary {
    pub kind: Seq<char>,
    pub contents: Seq<char>,
    pub start_row: usize,
    pub end_row: usize,
}

impl View for NodeSummary {
    type V = Summary;

    open spec fn view(&self) -> Summary {
        Summary {
            kind: self.kind@,
            contents: self.contents@,
            start_row: self.start_row,
            end_row: self.end_row,
        }
    }
}

/// The summaries of a list of nodes.
pub open spec fn summaries(nodes: Seq<NodeSummary>) -> Seq<Summary> {
    nodes.map_values(|node: NodeSummary| node@)
}

/// The numeral of a digit.
pub open spec fn digit(d: nat) -> char {
    if d == 0 {
        '0'
    } else if d == 1 {
        '1'
    } else if d == 2 {
        '2'
    } else if d == 3 {
        '3'
    } else if d == 4 {
        '4'
    } else if d == 5 {
        '5'
    } else if d == 6 {
        '6'
    } else if d == 7 {
        '7'
    } else if d == 8 {
        '8'
    } else {
        '9'
    }
}

/// A natural number in decimal digits.
pub open spec fn decimal(n: nat) -> Seq<char>
    decreases n,
{
    if n < 10 {
        seq![digit(n)]
    } else {
        decimal(n / 10).push(digit(n % 10))
    }
}

fn digit_text(d: u128) -> (text: &'static str)
    requires
        d < 10,
    ensures
        text@ == seq![digit(d as nat)],
{
    proof {
        reveal_strlit("0");
        reveal_strlit("1");
        reveal_strlit("2");
        reveal_strlit("3");
        reveal_strlit("4");
        reveal_strlit("5");
        reveal_strlit("6");
        reveal_strlit("7");
        reveal_strlit("8");
        reveal_strlit("9");
    }
    let text = if d == 0 {
        "0"
    } else if d == 1 {
        "1"
    } else if d == 2 {
        "2"
    } else if d == 3 {
        "3"
    } else if d == 4 {
        "4"
    } else if d == 5 {
        "5"
    } else if d == 6 {
        "6"
    } else if d == 7 {
        "7"
    } else if d == 8 {
        "8"
    } else {
        "9"
    };
    assert(text@ =~= seq![digit(d as nat)]);
    text
}

/// The number `n` in decimal digits.
pub fn decimal_string(n: u128) -> (text: String)
    ensures
        text@ == decimal(n as nat),
    decreases n,
{
    if n < 10 {
        String::from_str(digit_text(n))
    } else {
        let mut text = decimal_string(n / 10);
        text.append(digit_text(n % 10));
        assert(text@ =~= decimal(n as nat));
        text
    }
}

/// The character is white space.
pub open spec fn is_blank(c: char) -> bool {
    c == ' ' || c == '\t' || c == '\n' || c == '\r' || c == '\u{b}' || c == '\u{c}'
}

/// The character ends a line.
pub open spec fn ends_line(c: char) -> bool {
    c == '\n' || c == '\r'
}

/// The index of the first character of `s` from `i` on that is not white
/// space, or the length of `s`.
pub open spec fn leading(s: Seq<char>, i: nat) -> nat
    decreases s.len() - i,
{
    if i < s.len() && is_blank(s[i as int]) {
        leading(s, i + 1)
    } else {
        i
    }
}

/// The index behind the last character of `s` before `e`, and not before
/// `low`, that is not white space.
pub open spec fn trailing(s: Seq<char>, low: nat, e: nat) -> nat
    decreases e,
{
    if e > low && e <= s.len() && is_blank(s[e - 1]) {
        trailing(s, low, (e - 1) as nat)
    } else {
        e
    }
}

/// The text without the white space at its two ends.
pub open spec fn trimmed(s: Seq<char>) -> Seq<char> {
    let start = leading(s, 0);
    s.subrange(start as int, trailing(s, start, s.len()) as int)
}

/// The text on one line: every end of line is a space.
pub open spec fn on_one_line(s: Seq<char>) -> Seq<char> {
    s.map_values(
        |c: char|
            if ends_line(c) {
                ' '
            } else {
                c
            },
    )
}

/// The text as a report shows it: without the white space at its ends, on
/// one line, and cut to 22 characters and three dots where it has more than
/// 25.
pub open spec fn shown(s: Seq<char>) -> Seq<char> {
    let t = trimmed(s);
    if t.len() > 25 {
        on_one_line(t.take(22)) + "..."@
    } else {
        on_one_line(t)
    }
}

proof fn lemma_leading_bounds(s: Seq<char>, i: nat)
    requires
        i <= s.len(),
    ensures
        i <= leading(s, i) <= s.len(),
    decreases s.len() - i,
{
    if i < s.len() && is_blank(s[i as int]) {
        lemma_leading_bounds(s, i + 1);
    }
}

proof fn lemma_trailing_bounds(s: Seq<char>, low: nat, e: nat)
    requires
        low <= e <= s.len(),
    ensures
        low <= trailing(s, low, e) <= e,
    decreases e,
{
    if e > low && is_blank(s[e - 1]) {
        lemma_trailing_bounds(s, low, (e - 1) as nat);
    }
}

fn blank(c: char) -> (is: bool)
    ensures
        is == is_blank(c),
{
    c == ' ' || c == '\t' || c == '\n' || c == '\r' || c == '\u{b}' || c == '\u{c}'
}

/// The text as a report shows it.
pub fn shown_text(text: &str) -> (out: String)
    ensures
        out@ == shown(text@),
{
    let len = text.unicode_len();
    let mut start: usize = 0;
    while start < len && blank(text.get_char(start))
        invariant
            start <= len,
            len == text@.len(),
            leading(text@, start as nat) == leading(text@, 0),
        decreases len - start,
    {
        start += 1;
    }
    let mut end: usize = len;
    while end > start && blank(text.get_char(end - 1))
        invariant
            start <= end <= len,
            len == text@.len(),
            trailing(text@, start as nat, end as nat) == trailing(text@, start as nat, len as nat),
        decreases end,
    {
        end -= 1;
    }
    let ghost t = text@.subrange(start as int, end as int);
    proof {
        assert(t == trimmed(text@));
    }
    let cut = end - start > 25;
    let kept: usize = if cut {
        22
    } else {
        end - start
    };
    let mut out = String::new();
    let mut k: usize = 0;
    proof {
        reveal_strlit(" ");
        assert(out@ =~= on_one_line(t.take(0)));
    }
    while k < kept
        invariant
            k <= kept,
            start + kept <= end,
            end <= len,
            len == text@.len(),
            t == text@.subrange(start as int, end as int),
            out@ == on_one_line(t.take(k as int)),
            " "@ == seq![' '],
        decreases kept - k,
    {
        let c = text.get_char(start + k);
        let ghost before = out@;
        if c == '\n' || c == '\r' {
            out.append(" ");
        } else {
            let piece = text.substring_char(start + k, start + k + 1);
            out.append(piece);
        }
        proof {
            assert(t[k as int] == c);
            assert(out@ =~= on_one_line(t.take(k + 1)));
        }
        k += 1;
    }
    if cut {
        out.append("...");
    } else {
        proof {
            assert(t.take(kept as int) =~= t);
        }
    }
    out
}

/// The rows of a list of nodes: a single line, or the first and the last.
/// Rows are counted from 0, lines from 1.
pub open spec fn line_range(start_row: nat, end_row: nat) -> Seq<char> {
    if start_row == end_row {
        "(L"@ + decimal(start_row + 1) + ")"@
    } else {
        "(L"@ + decimal(start_row + 1) + "-L"@ + decimal(end_row + 1) + ")"@
    }
}

/// What a report says of one node: its kind and the text shown of it.
pub open spec fn described(node: Summary) -> Seq<char> {
    node.kind + ": '"@ + shown(node.contents) + "'"@
}

/// What a report says of the first `upto` nodes, separated by commas.
pub open spec fn descriptions(nodes: Seq<Summary>, upto: nat) -> Seq<char>
    decreases upto,
{
    if upto == 0 {
        Seq::empty()
    } else if upto == 1 {
        described(nodes[0])
    } else {
        descriptions(nodes, (upto - 1) as nat) + ", "@ + described(nodes[upto - 1])
    }
}

/// How many nodes a report describes: the first three.
pub open spec fn described_count(nodes: Seq<Summary>) -> nat {
    if nodes.len() > 3 {
        3
    } else {
        nodes.len()
    }
}

/// What a report says of a list of nodes: a dash for none, else their
/// number, the lines from the first to the last, and the first three of them,
/// with three dots where there are more.
pub open spec fn node_list(nodes: Seq<Summary>) -> Seq<char> {
    if nodes.len() == 0 {
        "-"@
    } else {
        decimal(nodes.len()) + " nós "@ + line_range(
            nodes.first().start_row as nat,
            nodes.last().end_row as nat,
        ) + " ["@ + descriptions(nodes, described_count(nodes)) + "]"@ + (if nodes.len() > 3 {
            "..."@
        } else {
            Seq::empty()
        })
    }
}

/// What a report says of a list of nodes.
pub fn format_node_list(nodes: &Vec<NodeSummary>) -> (text: String)
    ensures
        text@ == node_list(summaries(nodes@)),
{
    let ghost views = summaries(nodes@);
    if nodes.len() == 0 {
        return String::from_str("-");
    }
    let first = &nodes[0];
    let last = &nodes[nodes.len() - 1];
    let mut text = decimal_string(nodes.len() as u128);
    text.append(" nós ");
    text.append("(L");
    let start_line = decimal_string(first.start_row as u128 + 1);
    text.append(start_line.as_str());
    if first.start_row != last.end_row {
        text.append("-L");
        let end_line = decimal_string(last.end_row as u128 + 1);
        text.append(end_line.as_str());
    }
    text.append(")");
    text.append(" [");
    let ghost head = text@;
    proof {
        assert(views.first() == nodes@[0]@);
        assert(views.last() == nodes@[nodes@.len() - 1]@);
        assert(head =~= decimal(views.len()) + " nós "@ + line_range(
            views.first().start_row as nat,
            views.last().end_row as nat,
        ) + " ["@);
    }
    let count: usize = if nodes.len() > 3 {
        3
    } else {
        nodes.len()
    };
    let mut k: usize = 0;
    while k < count
        invariant
            k <= count,
            count <= nodes@.len(),
            views == summaries(nodes@),
            text@ == head + descriptions(views, k as nat),
        decreases count - k,
    {
        let ghost before = text@;
        if k > 0 {
            text.append(", ");
        }
        text.append(nodes[k].kind.as_str());
        text.append(": '");
        let content = shown_text(nodes[k].contents.as_str());
        text.append(content.as_str());
        text.append("'");
        proof {
            assert(views[k as int] == nodes@[k as int]@);
            assert(text@ =~= head + descriptions(views, (k + 1) as nat));
        }
        k += 1;
    }
    text.append("]");
    if nodes.len() > 3 {
        text.append("...");
    }
    proof {
        assert(text@ =~= node_list(views));
    }
    text
}

/// What a report tells of the node `id` of the arena; nothing of an index
/// that names no node.
pub open spec fn summary_in(f: Seq<NodeView>, id: usize) -> Summary {
    if id < f.len() {
        Summary {
            kind: f[id as int].kind,
            contents: crate::forest::contents(f, id as int),
            start_row: f[id as int].start_position.row,
            end_row: f[id as int].end_position.row,
        }
    } else {
        Summary { kind: Seq::empty(), contents: Seq::empty(), start_row: 0, end_row: 0 }
    }
}

/// What a report tells of the nodes `ids` of the arena.
pub open spec fn summaries_in(f: Seq<NodeView>, ids: Seq<usize>) -> Seq<Summary> {
    ids.map_values(|id: usize| summary_in(f, id))
}

/// What a report tells of the node `id` of the arena.
pub fn summary_of(forest: &Forest, id: usize) -> (summary: NodeSummary)
    requires
        wf(forest@),
    ensures
        summary@ == summary_in(forest@, id),
{
    if id < forest.len() {
        let node = forest.node(id);
        NodeSummary {
            kind: node.kind.clone(),
            contents: forest.contents(id),
            start_row: node.start_position.row,
            end_row: node.end_position.row,
        }
    } else {
        NodeSummary { kind: String::new(), contents: String::new(), start_row: 0, end_row: 0 }
    }
}

/// What a report says of the nodes `ids` of the arena.
pub fn describe_nodes(forest: &Forest, ids: &Vec<usize>) -> (text: String)
    requires
        wf(forest@),
    ensures
        text@ == node_list(summaries_in(forest@, ids@)),
{
    let mut nodes: Vec<NodeSummary> = Vec::new();
    let mut k: usize = 0;
    while k < ids.len()
        invariant
            k <= ids.len(),
            wf(forest@),
            nodes@.len() == k,
            forall|i: int| 0 <= i < k ==> (#[trigger] nodes@[i])@ == summary_in(forest@, ids@[i]),
        decreases ids.len() - k,
    {
        nodes.push(summary_of(forest, ids[k]));
        k += 1;
    }
    proof {
        assert(summaries(nodes@) =~= summaries_in(forest@, ids@));
    }
    format_node_list(&nodes)
}

} // verus!

use structured_merge::control::{chunk_log, equal_side, ExecutionResult, ReportedChunk};
use structured_merge::forest::Forest;
use structured_merge::matching::calculate_matchings;
use structured_merge::merge::log_report::{
    decimal_string, describe_nodes, format_node_list, shown_text, summary_of, NodeSummary,
};
use structured_merge::merge::log_structures::{log_merge, ChunkData, LogState, MergeChunk};
use structured_merge::model::{CSTNode, Delimiters, NonTerminal, Point, Terminal};

fn lexeme(kind: &str, value: &str, row: usize) -> CSTNode {
    CSTNode::Terminal(Terminal {
        kind: kind.to_string(),
        value: value.to_string(),
        start_position: Point { row, column: 0 },
        end_position: Point { row, column: 1 },
        leading_white_space: None,
    })
}

fn block(kind: &str, unordered: bool, rows: (usize, usize), children: Vec<CSTNode>) -> CSTNode {
    CSTNode::NonTerminal(NonTerminal {
        kind: kind.to_string(),
        children,
        start_position: Point { row: rows.0, column: 0 },
        end_position: Point { row: rows.1, column: 1 },
        are_children_unordered: unordered,
        delimiters: if unordered {
            Some(Delimiters {
                start: "{".to_string(),
                end: "}".to_string(),
            })
        } else {
            None
        },
        ..Default::default()
    })
}

fn summary(kind: &str, contents: &str, start_row: usize, end_row: usize) -> NodeSummary {
    NodeSummary {
        kind: kind.to_string(),
        contents: contents.to_string(),
        start_row,
        end_row,
    }
}

#[test]
fn numbers_are_written_in_decimal_digits() {
    assert_eq!("0", decimal_string(0));
    assert_eq!("7", decimal_string(7));
    assert_eq!("10", decimal_string(10));
    assert_eq!("4096", decimal_string(4096));
    assert_eq!(u128::MAX.to_string(), decimal_string(u128::MAX));
}

#[test]
fn a_text_is_shown_trimmed_on_one_line_and_cut() {
    assert_eq!("", shown_text(""));
    assert_eq!("", shown_text(" \n\t "));
    assert_eq!("a b", shown_text("  a\nb \r\n"));
    assert_eq!("a  b", shown_text("a\r\nb"));
    assert_eq!(
        "1234567890123456789012345",
        shown_text("1234567890123456789012345")
    );
    assert_eq!(
        "1234567890123456789012...",
        shown_text(" 12345678901234567890123456 ")
    );
    assert_eq!("ñandú é", shown_text("\tñandú\né"));
}

#[test]
fn a_list_of_nodes_is_reported_with_its_lines_and_its_first_three_nodes() {
    assert_eq!("-", format_node_list(&vec![]));
    assert_eq!(
        "1 nós (L3) [identifier: 'main']",
        format_node_list(&vec![summary("identifier", "main", 2, 2)])
    );
    assert_eq!(
        "2 nós (L1-L5) [a: 'x', method: 'void m(){ return somet...']",
        format_node_list(&vec![
            summary("a", " x ", 0, 0),
            summary("method", "void m(){\nreturn something; }", 1, 4),
        ])
    );
    assert_eq!(
        "4 nós (L1-L9) [a: '1', b: '2', c: '3']...",
        format_node_list(&vec![
            summary("a", "1", 0, 1),
            summary("b", "2", 2, 3),
            summary("c", "3", 4, 5),
            summary("d", "4", 6, 8),
        ])
    );
}

#[test]
fn the_nodes_of_the_arena_are_reported_by_their_kind_text_and_rows() {
    let mut forest = Forest::new();
    let root = forest.insert(&block(
        "list",
        false,
        (0, 2),
        vec![lexeme("a", "x", 0), lexeme("b", "y", 2)],
    ));

    assert_eq!(
        NodeSummary {
            kind: "list".to_string(),
            contents: "xy".to_string(),
            start_row: 0,
            end_row: 2,
        },
        summary_of(&forest, root)
    );
    assert_eq!(
        "2 nós (L1-L3) [a: 'x', b: 'y']",
        describe_nodes(&forest, &vec![0, 1])
    );
    assert_eq!("1 nós (L1-L3) [list: 'xy']", describe_nodes(&forest, &vec![root]));
}

#[test]
fn the_log_of_a_merge_holds_the_logs_of_the_merges_below_it() {
    let tree = |value: &str| {
        block(
            "file",
            false,
            (0, 3),
            vec![
                lexeme("package", "p", 0),
                block(
                    "body",
                    true,
                    (1, 3),
                    vec![
                        lexeme("{", "{", 1),
                        lexeme("member", value, 2),
                        lexeme("}", "}", 3),
                    ],
                ),
            ],
        )
    };
    let mut forest = Forest::new();
    let base = forest.insert(&tree("m"));
    let left = forest.insert(&tree("m"));
    let right = forest.insert(&tree("n"));
    let base_left = calculate_matchings(&forest, left, base);
    let base_right = calculate_matchings(&forest, right, base);
    let left_right = calculate_matchings(&forest, left, right);
    let child = |parent: usize, index: usize| forest.node(parent).children()[index];
    let body = |root: usize| child(root, 1);

    let mut log_state = LogState::new();
    log_merge(
        &forest,
        base,
        left,
        right,
        &base_left,
        &base_right,
        &left_right,
        &mut log_state,
    );

    assert_eq!(
        vec![
            MergeChunk::UnorderedContextStart {
                node_kind: "body".to_string()
            },
            MergeChunk::Stable(ChunkData {
                left_nodes: vec![child(left, 0), body(left), child(body(left), 0)],
                base_nodes: vec![child(base, 0), body(base), child(body(base), 0)],
                right_nodes: vec![child(right, 0), body(right), child(body(right), 0)],
            }),
            MergeChunk::Unstable(ChunkData {
                left_nodes: vec![],
                base_nodes: vec![],
                right_nodes: vec![child(body(right), 1)],
            }),
            MergeChunk::UnorderedContextEnd {
                node_kind: "body".to_string()
            },
        ],
        log_state.log
    );
    assert!(log_state.current_stable.is_empty());
    assert!(log_state.current_unstable.is_empty());

    assert_eq!(
        vec![
            ReportedChunk::UnorderedContextStart {
                node_kind: "body".to_string()
            },
            ReportedChunk::Stable {
                left: "3 nós (L1-L2) [package: 'p', body: '{m}', {: '{']".to_string(),
                base: "3 nós (L1-L2) [package: 'p', body: '{m}', {: '{']".to_string(),
                right: "3 nós (L1-L2) [package: 'p', body: '{n}', {: '{']".to_string(),
            },
            ReportedChunk::Unstable {
                left: "-".to_string(),
                base: "-".to_string(),
                right: "1 nós (L3) [member: 'n']".to_string(),
            },
            ReportedChunk::UnorderedContextEnd {
                node_kind: "body".to_string()
            },
        ],
        chunk_log(&tree("m"), &tree("m"), &tree("n"))
    );
}

#[test]
fn a_side_equal_to_base_needs_no_merge() {
    assert_eq!(
        Some(ExecutionResult::WithoutConflicts("r".to_string())),
        equal_side("b", "b", "r")
    );
    assert_eq!(
        Some(ExecutionResult::WithoutConflicts("l".to_string())),
        equal_side("b", "l", "b")
    );
    assert_eq!(
        Some(ExecutionResult::WithoutConflicts("b".to_string())),
        equal_side("b", "b", "b")
    );
    assert_eq!(None, equal_side("b", "l", "r"));
    assert_eq!(None, equal_side("b", "l", "l"));
}

use structured_merge::control::language_from_extension;
use structured_merge::forest::Forest;
use structured_merge::matching::calculate_matchings;
use structured_merge::matching::matching_entry::{Matching, MatchingEntry};
use structured_merge::matching::matchings::{MatchedPair, Matchings};
use structured_merge::merge::log_structures::{
    log_ordered_merge, log_unordered_merge, ChunkData, LogState, MergeChunk,
};
use structured_merge::merge::merge_error::MergeError;
use structured_merge::merge::merge_terminals::merge_terminals;
use structured_merge::merge::merged_cst_node::MergedCSTNode;
use structured_merge::merge::{decide, merge, Action, Advance, Step};
use structured_merge::model::{CSTNode, Delimiters, Language, NonTerminal, Point, Terminal};
use structured_merge::parsing::{explore_node, ParserConfiguration, RawNode};

fn word(kind: &str, value: &str, space: Option<&str>) -> CSTNode {
    CSTNode::Terminal(Terminal {
        kind: kind.to_string(),
        value: value.to_string(),
        leading_white_space: space.map(|text| text.to_string()),
        ..Default::default()
    })
}

fn list(kind: &str, unordered: bool, children: Vec<CSTNode>) -> CSTNode {
    CSTNode::NonTerminal(NonTerminal {
        kind: kind.to_string(),
        children,
        are_children_unordered: unordered,
        delimiters: if unordered {
            Some(Delimiters {
                start: "{".to_string(),
                end: "}".to_string(),
            })
        } else {
            None
        },
        ..Default::default()
    })
}

fn plain(kind: &str, value: &str, space: Option<&str>) -> MergedCSTNode {
    MergedCSTNode::Terminal {
        kind: kind.to_string(),
        value: value.to_string(),
        leading_white_space: space.map(|text| text.to_string()),
    }
}

fn found(node: usize, perfect: bool) -> Option<Matching> {
    Some(Matching {
        matching_node: node,
        score: 1,
        is_perfect_match: perfect,
    })
}

#[test]
fn three_terminals_merge_by_their_values() {
    let mut forest = Forest::new();
    let base = forest.insert(&word("literal", "0", None));
    let one = forest.insert(&word("number", "1", Some(" ")));
    let two = forest.insert(&word("digit", "2", Some("\t")));
    let same_as_base = forest.insert(&word("zero", "0", Some("\n")));

    assert_eq!(plain("number", "1", Some(" ")), merge_terminals(&forest, base, one, one));
    assert_eq!(
        plain("zero", "2", Some("\n")),
        merge_terminals(&forest, base, same_as_base, two)
    );
    assert_eq!(
        plain("digit", "2", Some("\t")),
        merge_terminals(&forest, base, two, same_as_base)
    );
    assert_eq!(
        MergedCSTNode::Conflict {
            left: Some(Box::new(plain("number", "1", Some(" ")))),
            right: Some(Box::new(plain("digit", "2", Some("\t")))),
        },
        merge_terminals(&forest, base, one, two)
    );
    assert_eq!(
        MergedCSTNode::Conflict {
            left: Some(Box::new(plain("digit", "2", Some("\t")))),
            right: Some(Box::new(plain("number", "1", Some(" ")))),
        },
        merge_terminals(&forest, base, two, one)
    );
}

#[test]
fn the_step_follows_the_table_of_the_ordered_merge() {
    let both = Advance::Both;
    let step = |action, advance| Step { action, advance };
    let conflict = |left, right| Action::Conflict { left, right };

    assert_eq!(
        step(Action::Recurse { base: 7 }, both),
        decide(true, found(1, true), found(7, false), found(2, true), found(8, true), 5)
    );
    assert_eq!(
        step(Action::Recurse { base: 5 }, both),
        decide(true, found(1, true), None, found(2, true), None, 5)
    );
    assert_eq!(
        step(Action::Recurse { base: 7 }, both),
        decide(true, found(1, true), found(7, true), found(2, true), None, 5)
    );
    assert_eq!(
        step(Action::Recurse { base: 8 }, both),
        decide(true, found(1, true), None, found(2, true), found(8, true), 5)
    );
    assert_eq!(
        step(Action::Skip, Advance::Right),
        decide(false, found(1, true), found(7, true), None, found(8, true), 5)
    );
    assert_eq!(
        step(conflict(false, true), Advance::Right),
        decide(false, found(1, true), None, None, found(8, false), 5)
    );
    assert_eq!(
        step(Action::EmitRight, Advance::Right),
        decide(false, found(1, true), found(7, true), None, None, 5)
    );
    assert_eq!(
        step(Action::EmitRight, Advance::Right),
        decide(false, found(1, true), None, None, None, 5)
    );
    assert_eq!(
        step(Action::Skip, Advance::Left),
        decide(false, None, found(7, true), found(2, true), found(8, false), 5)
    );
    assert_eq!(
        step(conflict(true, false), Advance::Left),
        decide(false, None, found(7, false), found(2, true), None, 5)
    );
    assert_eq!(
        step(Action::EmitLeft, Advance::Left),
        decide(false, None, None, found(2, true), found(8, true), 5)
    );
    assert_eq!(
        step(Action::EmitLeft, Advance::Left),
        decide(false, None, None, found(2, true), None, 5)
    );
    assert_eq!(
        step(Action::Skip, both),
        decide(false, None, found(7, true), None, found(8, true), 5)
    );
    assert_eq!(
        step(conflict(false, true), both),
        decide(false, None, found(7, true), None, found(8, false), 5)
    );
    assert_eq!(
        step(conflict(true, false), both),
        decide(false, None, found(7, false), None, found(8, true), 5)
    );
    assert_eq!(
        step(conflict(true, true), both),
        decide(false, None, found(7, false), None, found(8, false), 5)
    );
    assert_eq!(
        step(Action::EmitRight, both),
        decide(false, None, found(7, true), None, None, 5)
    );
    assert_eq!(
        step(conflict(true, true), both),
        decide(false, None, found(7, false), None, None, 5)
    );
    assert_eq!(
        step(Action::EmitLeft, both),
        decide(false, None, None, None, found(8, true), 5)
    );
    assert_eq!(
        step(conflict(true, true), both),
        decide(false, None, None, None, found(8, false), 5)
    );
    assert_eq!(
        step(conflict(true, true), both),
        decide(false, None, None, None, None, 5)
    );
    assert_eq!(
        step(Action::Fallback, both),
        decide(true, None, None, None, None, 5)
    );
    assert_eq!(
        step(Action::Fallback, both),
        decide(false, found(1, true), None, found(2, true), None, 5)
    );
}

#[test]
fn swapping_the_sides_mirrors_the_step() {
    let swapped_of = |step: Step| Step {
        action: match step.action {
            Action::EmitLeft => Action::EmitRight,
            Action::EmitRight => Action::EmitLeft,
            Action::Conflict { left, right } => Action::Conflict {
                left: right,
                right: left,
            },
            other => other,
        },
        advance: match step.advance {
            Advance::Left => Advance::Right,
            Advance::Right => Advance::Left,
            Advance::Both => Advance::Both,
        },
    };
    let options = [None, found(3, true), found(4, false)];
    for bidir in [true, false] {
        for lr_l in options {
            for bl in options {
                for lr_r in options {
                    for br in options {
                        let step = decide(bidir, lr_l, bl, lr_r, br, 5);
                        let swapped = decide(bidir, lr_r, br, lr_l, bl, 6);
                        match step.action {
                            Action::Recurse { .. } => {
                                assert!(matches!(swapped.action, Action::Recurse { .. }));
                                assert_eq!(Advance::Both, swapped.advance);
                            }
                            _ => assert_eq!(swapped_of(step), swapped),
                        }
                        if let Action::Conflict { left, right } = step.action {
                            assert!(!bidir);
                            let perfect =
                                |m: Option<Matching>| m.map_or(false, |x| x.is_perfect_match);
                            assert!(left || right);
                            assert!(!(left && perfect(bl)));
                            assert!(!(right && perfect(br)));
                        }
                    }
                }
            }
        }
    }
}

#[test]
fn a_merged_tree_renders_its_children_with_their_white_space() {
    let tree = MergedCSTNode::NonTerminal {
        kind: "statement".to_string(),
        leading_white_space: Some("    ".to_string()),
        children: vec![
            plain("return", "return", None),
            MergedCSTNode::Conflict {
                left: Some(Box::new(plain("number", "1", Some(" ")))),
                right: None,
            },
            MergedCSTNode::NonTerminal {
                kind: "tail".to_string(),
                leading_white_space: Some(" ".to_string()),
                children: vec![plain(";", ";", None), plain("comment", "// x", Some("  "))],
            },
        ],
    };

    assert!(tree.has_conflict());
    assert_eq!(
        "return\n<<<<<<<\n1\n=======\n\n>>>>>>>\n ;  // x",
        tree.to_string()
    );
    assert!(!plain("a", "b", Some(" ")).has_conflict());
    assert_eq!("b", plain("a", "b", Some(" ")).to_string());
    assert!(MergedCSTNode::Conflict {
        left: None,
        right: Some(Box::new(plain("a", "b", None))),
    }
    .has_conflict());
}

#[test]
fn an_unchanged_subtree_renders_the_text_it_came_from() {
    let mut forest = Forest::new();
    let root = forest.insert(&list(
        "block",
        false,
        vec![
            word("{", "{", None),
            list(
                "statement",
                false,
                vec![word("id", "x", None), word(";", ";", Some(" "))],
            ),
            word("}", "}", Some("\n")),
        ],
    ));

    assert_eq!("{x ;\n}", MergedCSTNode::from(&forest, root).to_string());
    assert_eq!("{x;}", forest.contents(root));
    assert_eq!(5 + 1, forest.len());
}

#[test]
fn the_messages_of_the_errors_name_the_kinds() {
    assert_eq!(
        "Merging terminals with non-terminals is not supported",
        MergeError::MergingTerminalWithNonTerminal.to_string()
    );
    assert_eq!(
        "Tried to merge nodes of different kinds: a and b",
        MergeError::NodesWithDifferentKinds("a".to_string(), "b".to_string()).to_string()
    );
}

#[test]
fn a_merge_into_nodes_of_different_kinds_fails_with_the_two_kinds() {
    let mut forest = Forest::new();
    let base = forest.insert(&list("root", false, vec![list("a", false, vec![])]));
    let left = forest.insert(&list("root", false, vec![list("a", false, vec![])]));
    let right = forest.insert(&list("other", false, vec![list("a", false, vec![])]));
    let base_left = calculate_matchings(&forest, base, left);
    let base_right = calculate_matchings(&forest, base, right);
    let left_right = calculate_matchings(&forest, left, right);

    assert_eq!(
        Err(MergeError::NodesWithDifferentKinds(
            "root".to_string(),
            "other".to_string()
        )),
        merge(&forest, base, left, right, &base_left, &base_right, &left_right)
    );
    assert!(merge(&forest, base, left, left, &base_left, &base_left, &base_left).is_ok());
}

#[test]
fn the_log_of_an_ordered_merge_tells_stable_from_unstable_regions() {
    let mut forest = Forest::new();
    let base = forest.insert(&list(
        "list",
        false,
        vec![word("a", "a", None), word("c", "c", None)],
    ));
    let left = forest.insert(&list(
        "list",
        false,
        vec![word("a", "a", None), word("b", "b", None), word("c", "c", None)],
    ));
    let right = forest.insert(&list(
        "list",
        false,
        vec![word("a", "a", None), word("c", "c", None), word("d", "d", None)],
    ));
    let base_left = calculate_matchings(&forest, base, left);
    let base_right = calculate_matchings(&forest, base, right);
    let left_right = calculate_matchings(&forest, left, right);
    let child = |parent: usize, index: usize| forest.node(parent).children()[index];

    let mut log_state = LogState::new();
    log_ordered_merge(
        &forest,
        left,
        right,
        &base_left,
        &base_right,
        &left_right,
        &mut log_state,
    );

    assert_eq!(
        vec![
            MergeChunk::Stable(ChunkData {
                left_nodes: vec![child(left, 0)],
                base_nodes: vec![child(base, 0)],
                right_nodes: vec![child(right, 0)],
            }),
            MergeChunk::Unstable(ChunkData {
                left_nodes: vec![child(left, 1)],
                base_nodes: vec![],
                right_nodes: vec![],
            }),
            MergeChunk::Stable(ChunkData {
                left_nodes: vec![child(left, 2)],
                base_nodes: vec![child(base, 1)],
                right_nodes: vec![child(right, 1)],
            }),
        ],
        log_state.log
    );
    assert!(log_state.current_stable.is_empty());
    assert!(log_state.current_unstable.is_empty());
    assert!(!ChunkData {
        left_nodes: vec![],
        base_nodes: vec![1],
        right_nodes: vec![],
    }
    .is_empty());
}

#[test]
fn the_log_of_an_unordered_merge_is_marked_at_both_ends() {
    let mut forest = Forest::new();
    let base = forest.insert(&list(
        "body",
        true,
        vec![word("{", "{", None), word("}", "}", None)],
    ));
    let left = forest.insert(&list(
        "body",
        true,
        vec![word("{", "{", None), word("m", "a", None), word("}", "}", None)],
    ));
    let right = forest.insert(&list(
        "body",
        true,
        vec![word("{", "{", None), word("m", "b", None), word("}", "}", None)],
    ));
    let base_left = calculate_matchings(&forest, base, left);
    let base_right = calculate_matchings(&forest, base, right);
    let left_right = calculate_matchings(&forest, left, right);
    let child = |parent: usize, index: usize| forest.node(parent).children()[index];

    let mut log_state = LogState::new();
    log_unordered_merge(
        &forest,
        left,
        right,
        &base_left,
        &base_right,
        &left_right,
        &mut log_state,
    );

    assert_eq!(
        vec![
            MergeChunk::UnorderedContextStart {
                node_kind: "body".to_string()
            },
            MergeChunk::Stable(ChunkData {
                left_nodes: vec![child(left, 0)],
                base_nodes: vec![child(base, 0)],
                right_nodes: vec![child(right, 0)],
            }),
            MergeChunk::Unstable(ChunkData {
                left_nodes: vec![child(left, 1)],
                base_nodes: vec![],
                right_nodes: vec![child(right, 1)],
            }),
            MergeChunk::UnorderedContextEnd {
                node_kind: "body".to_string()
            },
        ],
        log_state.log
    );
}

#[test]
fn a_raw_node_becomes_a_terminal_or_an_interior_node_by_the_configuration() {
    let configuration = ParserConfiguration::from(Language::Java);
    let raw = |kind: &str, text: &str, children: Vec<RawNode>| RawNode {
        kind: kind.to_string(),
        text: text.to_string(),
        start_position: Point { row: 1, column: 2 },
        end_position: Point { row: 3, column: 4 },
        leading_white_space: Some(" ".to_string()),
        identifier: Some(vec!["name".to_string()]),
        children,
    };

    let tree = explore_node(
        &raw(
            "class_body",
            "{ \"a\" }",
            vec![
                raw("{", "{", vec![]),
                raw(
                    "string_literal",
                    "\"a\"",
                    vec![raw("\"", "\"", vec![]), raw("string_fragment", "a", vec![])],
                ),
                raw("block", "}", vec![raw("}", "}", vec![])]),
            ],
        ),
        &configuration,
    );

    let leaf = |kind: &str, value: &str| {
        CSTNode::Terminal(Terminal {
            kind: kind.to_string(),
            value: value.to_string(),
            start_position: Point { row: 1, column: 2 },
            end_position: Point { row: 3, column: 4 },
            leading_white_space: Some(" ".to_string()),
        })
    };
    assert_eq!(
        CSTNode::NonTerminal(NonTerminal {
            kind: "class_body".to_string(),
            children: vec![
                leaf("{", "{"),
                leaf("string_literal", "\"a\""),
                CSTNode::NonTerminal(NonTerminal {
                    kind: "block".to_string(),
                    children: vec![leaf("}", "}")],
                    start_position: Point { row: 1, column: 2 },
                    end_position: Point { row: 3, column: 4 },
                    leading_white_space: Some(" ".to_string()),
                    are_children_unordered: false,
                    identifier: Some(vec!["name".to_string()]),
                    delimiters: None,
                }),
            ],
            start_position: Point { row: 1, column: 2 },
            end_position: Point { row: 3, column: 4 },
            leading_white_space: Some(" ".to_string()),
            are_children_unordered: true,
            identifier: Some(vec!["name".to_string()]),
            delimiters: Some(Delimiters {
                start: "{".to_string(),
                end: "}".to_string(),
            }),
        }),
        tree
    );
}

#[test]
fn the_configurations_name_the_kinds_of_their_language() {
    let java = ParserConfiguration::from(Language::Java);
    assert_eq!(Language::Java, java.language);
    assert_eq!(vec!["string_literal".to_string()], java.stop_compilation_at);
    assert_eq!(
        vec![
            "interface_body".to_string(),
            "class_body".to_string(),
            "modifiers".to_string(),
            "enum_body_declarations".to_string(),
        ],
        java.kinds_with_unordered_children
    );
    assert_eq!(vec!["}".to_string()], java.block_end_delimiters);
    assert_eq!(
        Some(Delimiters {
            start: "{".to_string(),
            end: "}".to_string(),
        }),
        java.delimiters_of(&"class_body".to_string())
    );
    assert_eq!(None, java.delimiters_of(&"modifiers".to_string()));

    let csharp = ParserConfiguration::from(Language::CSharp);
    assert!(csharp.stop_compilation_at.is_empty());
    assert_eq!(
        vec![
            "declaration_list".to_string(),
            "enum_member_declaration_list".to_string(),
        ],
        csharp.kinds_with_unordered_children
    );
    assert_eq!(6, csharp.identifier_extractors.len());
}

#[test]
fn the_extension_of_a_file_tells_its_language() {
    assert_eq!(Some(Language::Java), language_from_extension("java"));
    assert_eq!(Some(Language::CSharp), language_from_extension("cs"));
    assert_eq!(None, language_from_extension("rs"));
    assert_eq!(None, language_from_extension(""));
}

#[test]
fn matchings_built_from_pairs_find_the_last_record() {
    let first = MatchingEntry { score: 1, is_perfect_match: true };
    let second = MatchingEntry { score: 2, is_perfect_match: false };
    let matchings = Matchings::new(vec![
        MatchedPair { left: 1, right: 2, entry: first },
        MatchedPair { left: 3, right: 1, entry: second },
        MatchedPair { left: 2, right: 1, entry: second },
    ]);

    assert_eq!(3, matchings.len());
    assert!(!matchings.is_empty());
    assert_eq!(Some(second), matchings.get_matching_entry(1, 2));
    assert_eq!(Some(second), matchings.get_matching_entry(1, 3));
    assert_eq!(None, matchings.get_matching_entry(2, 3));
    assert_eq!(
        Some(Matching { matching_node: 2, score: 2, is_perfect_match: false }),
        matchings.find_matching_for(1)
    );
    assert_eq!(
        Some(Matching { matching_node: 1, score: 2, is_perfect_match: false }),
        matchings.find_matching_for(3)
    );
    assert_eq!(MatchedPair { left: 3, right: 1, entry: second }, matchings.pair(1));
}

#[test]
fn the_arena_stores_a_tree_behind_its_children() {
    let mut forest = Forest::new();
    let first = forest.insert(&word("a", "a", None));
    let root = forest.insert(&list(
        "outer",
        false,
        vec![
            list("inner", false, vec![word("b", "b", None), word("c", "c", None)]),
            word("d", "d", None),
        ],
    ));

    assert_eq!(0, first);
    assert_eq!(5, root);
    assert_eq!(6, forest.len());
    assert_eq!(&vec![3, 4], forest.node(root).children());
    assert_eq!(&vec![1, 2], forest.node(3).children());
    assert!(forest.node(4).is_terminal());
    assert!(!forest.node(3).is_terminal());
    assert_eq!(0, forest.node(root).depth);
    assert_eq!(1, forest.node(3).depth);
    assert_eq!(2, forest.node(2).depth);
    assert_eq!(1, forest.node(root).first);
    assert_eq!(1, forest.node(3).first);
    assert_eq!(4, forest.node(4).first);
    assert_eq!(0, forest.node(first).first);
    assert_eq!("bcd", forest.contents(root));
    assert!(forest.node(1).has_identifier());
    assert!(!forest.node(3).has_identifier());
    assert!(!forest.node(3).are_children_unordered());
}

use structured_merge::forest::Forest;
use structured_merge::matching::matchings::Matchings;
use structured_merge::matching::unordered::calculate_matchings;
use structured_merge::merge::merge;
use structured_merge::merge::merge_error::MergeError;
use structured_merge::merge::merged_cst_node::MergedCSTNode;
use structured_merge::merge::unordered_merge::unordered_merge;
use structured_merge::model::{CSTNode, Delimiters, NonTerminal, Terminal};

fn token(kind: &str, value: &str) -> CSTNode {
    CSTNode::Terminal(Terminal {
        kind: kind.to_string(),
        value: value.to_string(),
        ..Default::default()
    })
}

fn braces() -> Option<Delimiters> {
    Some(Delimiters {
        start: "{".to_string(),
        end: "}".to_string(),
    })
}

fn body(kind: &str, delimiters: Option<Delimiters>, children: Vec<CSTNode>) -> CSTNode {
    CSTNode::NonTerminal(NonTerminal {
        kind: kind.to_string(),
        are_children_unordered: true,
        identifier: None,
        leading_white_space: None,
        delimiters,
        children,
        ..Default::default()
    })
}

fn declaration(kind: &str, identifier: Option<Vec<&str>>, children: Vec<CSTNode>) -> CSTNode {
    CSTNode::NonTerminal(NonTerminal {
        kind: kind.to_string(),
        are_children_unordered: false,
        children,
        identifier: identifier.map(|parts| parts.iter().map(|part| part.to_string()).collect()),
        ..Default::default()
    })
}

fn merged_token(kind: &str, value: &str) -> MergedCSTNode {
    MergedCSTNode::Terminal {
        kind: kind.to_string(),
        value: value.to_string(),
        leading_white_space: None,
    }
}

fn merged_inner(kind: &str, children: Vec<MergedCSTNode>) -> MergedCSTNode {
    MergedCSTNode::NonTerminal {
        kind: kind.to_string(),
        children,
        leading_white_space: None,
    }
}

fn unordered_merge_of_parents(
    base: &CSTNode,
    parent_a: &CSTNode,
    parent_b: &CSTNode,
) -> (
    Result<MergedCSTNode, MergeError>,
    Result<MergedCSTNode, MergeError>,
) {
    let mut forest = Forest::new();
    let base = forest.insert(base);
    let parent_a = forest.insert(parent_a);
    let parent_b = forest.insert(parent_b);

    let matchings_base_parent_a = calculate_matchings(&forest, base, parent_a);
    let matchings_base_parent_b = calculate_matchings(&forest, base, parent_b);
    let matchings_parents = calculate_matchings(&forest, parent_a, parent_b);

    let merged_tree = unordered_merge(
        &forest,
        parent_a,
        parent_b,
        &matchings_base_parent_a,
        &matchings_base_parent_b,
        &matchings_parents,
    );
    let merged_tree_swap = unordered_merge(
        &forest,
        parent_b,
        parent_a,
        &matchings_base_parent_b,
        &matchings_base_parent_a,
        &matchings_parents,
    );
    (merged_tree, merged_tree_swap)
}

fn assert_unordered_merge_is_correct_and_idempotent_with_respect_to_parent_side(
    base: &CSTNode,
    parent_a: &CSTNode,
    parent_b: &CSTNode,
    expected_merge: &MergedCSTNode,
) {
    let (merged_tree, merged_tree_swap) = unordered_merge_of_parents(base, parent_a, parent_b);

    assert_eq!(expected_merge, &merged_tree.unwrap());
    assert_eq!(expected_merge, &merged_tree_swap.unwrap());
}

fn assert_unordered_merge_output_is(
    base: &CSTNode,
    parent_a: &CSTNode,
    parent_b: &CSTNode,
    expected_merge: &MergedCSTNode,
) {
    let (merged_tree, _) = unordered_merge_of_parents(base, parent_a, parent_b);

    assert_eq!(expected_merge, &merged_tree.unwrap());
}

#[test]
fn test_merge_node_added_only_by_one_parent() {
    let base = body(
        "interface_body",
        braces(),
        vec![token("{", "{"), token("}", "}")],
    );
    let parent_a = body(
        "interface_body",
        braces(),
        vec![
            token("{", "{"),
            token("method_declaration", "main"),
            token("}", "}"),
        ],
    );
    let parent_b = body(
        "interface_body",
        braces(),
        vec![token("{", "{"), token("}", "}")],
    );

    let merge = merged_inner(
        "interface_body",
        vec![
            merged_token("{", "{"),
            merged_token("method_declaration", "main"),
            merged_token("}", "}"),
        ],
    );

    assert_unordered_merge_is_correct_and_idempotent_with_respect_to_parent_side(
        &base, &parent_a, &parent_b, &merge,
    )
}

#[test]
fn test_both_parents_add_the_same_node_and_both_subtrees_are_equal() {
    let base = body(
        "interface_body",
        braces(),
        vec![token("{", "{"), token("}", "}")],
    );
    let parent_a = body(
        "interface_body",
        braces(),
        vec![
            token("{", "{"),
            declaration(
                "a_method_declaration",
                None,
                vec![token("identifier", "main")],
            ),
            token("}", "}"),
        ],
    );
    let parent_b = body(
        "interface_body",
        braces(),
        vec![
            token("{", "{"),
            declaration(
                "a_method_declaration",
                None,
                vec![token("identifier", "main")],
            ),
            token("}", "}"),
        ],
    );

    let expected_merge = merged_inner(
        "interface_body",
        vec![
            merged_token("{", "{"),
            merged_inner(
                "a_method_declaration",
                vec![merged_token("identifier", "main")],
            ),
            merged_token("}", "}"),
        ],
    );

    assert_unordered_merge_is_correct_and_idempotent_with_respect_to_parent_side(
        &base,
        &parent_a,
        &parent_b,
        &expected_merge,
    )
}

#[test]
fn test_merge_one_parent_removes_a_node_while_the_other_keeps_it_unchanged() {
    let base = body(
        "interface_body",
        braces(),
        vec![
            token("{", "{"),
            declaration(
                "method_declaration",
                Some(vec!["main"]),
                vec![
                    token("formal_parameters", "formal_parameters"),
                    token("identifier", "main"),
                ],
            ),
            token("}", "}"),
        ],
    );
    let parent_a = body(
        "interface_body",
        None,
        vec![
            token("{", "{"),
            declaration(
                "method_declaration",
                Some(vec!["main"]),
                vec![
                    token("formal_parameters", "formal_parameters"),
                    token("identifier", "main"),
                ],
            ),
            token("}", "}"),
        ],
    );
    let parent_b = body(
        "interface_body",
        None,
        vec![token("{", "{"), token("}", "}")],
    );

    let expected_merge = merged_inner(
        "interface_body",
        vec![merged_token("{", "{"), merged_token("}", "}")],
    );

    assert_unordered_merge_is_correct_and_idempotent_with_respect_to_parent_side(
        &base,
        &parent_a,
        &parent_b,
        &expected_merge,
    )
}

#[test]
fn test_merge_one_parent_removes_a_node_while_the_other_changed_it() {
    let base = body(
        "interface_body",
        braces(),
        vec![
            token("{", "{"),
            declaration(
                "method_declaration",
                Some(vec!["method"]),
                vec![
                    token("formal_parameters", "formal_parameters"),
                    token("identifier", "method"),
                    token("kind_a", "value_a"),
                    token("kind_b", "value_b"),
                ],
            ),
            token("}", "}"),
        ],
    );
    let parent_a = body(
        "interface_body",
        braces(),
        vec![
            token("{", "{"),
            declaration(
                "method_declaration",
                Some(vec!["method"]),
                vec![
                    token("formal_parameters", "formal_parameters"),
                    token("identifier", "method"),
                    token("kind_a", "value_a"),
                    token("kind_b", "new_value_b"),
                ],
            ),
            token("}", "}"),
        ],
    );
    let parent_b = body(
        "interface_body",
        braces(),
        vec![token("{", "{"), token("}", "}")],
    );

    let changed_method = || {
        merged_inner(
            "method_declaration",
            vec![
                merged_token("formal_parameters", "formal_parameters"),
                merged_token("identifier", "method"),
                merged_token("kind_a", "value_a"),
                merged_token("kind_b", "new_value_b"),
            ],
        )
    };

    assert_unordered_merge_output_is(
        &base,
        &parent_a,
        &parent_b,
        &merged_inner(
            "interface_body",
            vec![
                merged_token("{", "{"),
                MergedCSTNode::Conflict {
                    left: Some(Box::new(changed_method())),
                    right: None,
                },
                merged_token("}", "}"),
            ],
        ),
    );
    assert_unordered_merge_output_is(
        &base,
        &parent_b,
        &parent_a,
        &merged_inner(
            "interface_body",
            vec![
                merged_token("{", "{"),
                MergedCSTNode::Conflict {
                    left: None,
                    right: Some(Box::new(changed_method())),
                },
                merged_token("}", "}"),
            ],
        ),
    )
}

#[test]
fn unordered_merge_i_get_an_error_if_i_try_to_merge_nodes_of_different_kinds() {
    let mut forest = Forest::new();
    let kind_a = forest.insert(&CSTNode::NonTerminal(NonTerminal {
        kind: "kind_a".to_string(),
        children: vec![],
        are_children_unordered: true,
        ..Default::default()
    }));
    let kind_b = forest.insert(&CSTNode::NonTerminal(NonTerminal {
        kind: "kind_b".to_string(),
        children: vec![],
        are_children_unordered: true,
        ..Default::default()
    }));

    let matchings = Matchings::empty();
    let result = unordered_merge(&forest, kind_a, kind_b, &matchings, &matchings, &matchings);

    assert!(result.is_err());
    assert_eq!(
        result.unwrap_err(),
        MergeError::NodesWithDifferentKinds("kind_a".to_string(), "kind_b".to_string())
    );
}

#[test]
fn test_can_not_merge_terminal_with_non_terminal() {
    let mut forest = Forest::new();
    let base = forest.insert(&token("kind", "value"));
    let left = forest.insert(&token("kind", "value"));
    let right = forest.insert(&CSTNode::NonTerminal(NonTerminal {
        kind: "kind".to_string(),
        are_children_unordered: false,
        children: vec![],
        ..Default::default()
    }));

    let error = merge(
        &forest,
        base,
        left,
        right,
        &Matchings::empty(),
        &Matchings::empty(),
        &Matchings::empty(),
    )
    .unwrap_err();

    assert_eq!(error, MergeError::MergingTerminalWithNonTerminal);
}

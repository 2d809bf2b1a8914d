use structured_merge::forest::Forest;
use structured_merge::matching::matchings::Matchings;
use structured_merge::matching::ordered;
use structured_merge::merge::merge_error::MergeError;
use structured_merge::merge::merged_cst_node::MergedCSTNode;
use structured_merge::merge::ordered_merge::ordered_merge;
use structured_merge::model::{CSTNode, NonTerminal, Point, Terminal};

fn terminal(kind: &str, value: &str) -> CSTNode {
    CSTNode::Terminal(Terminal {
        kind: kind.to_string(),
        value: value.to_string(),
        start_position: Point { row: 0, column: 0 },
        end_position: Point { row: 0, column: 7 },
        leading_white_space: None,
    })
}

fn non_terminal(kind: &str, children: Vec<CSTNode>) -> CSTNode {
    CSTNode::NonTerminal(NonTerminal {
        kind: kind.to_string(),
        children,
        start_position: Point { row: 0, column: 0 },
        end_position: Point { row: 0, column: 7 },
        leading_white_space: None,
        are_children_unordered: false,
        identifier: None,
        delimiters: None,
    })
}

fn merged_terminal(kind: &str, value: &str) -> MergedCSTNode {
    MergedCSTNode::Terminal {
        kind: kind.to_string(),
        value: value.to_string(),
        leading_white_space: None,
    }
}

fn merged_non_terminal(kind: &str, children: Vec<MergedCSTNode>) -> MergedCSTNode {
    MergedCSTNode::NonTerminal {
        kind: kind.to_string(),
        children,
        leading_white_space: None,
    }
}

fn conflict(left: Option<MergedCSTNode>, right: Option<MergedCSTNode>) -> MergedCSTNode {
    MergedCSTNode::Conflict {
        left: left.map(Box::new),
        right: right.map(Box::new),
    }
}

fn merge_of_parents(
    base: &CSTNode,
    parent_a: &CSTNode,
    parent_b: &CSTNode,
) -> (
    Result<MergedCSTNode, MergeError>,
    Result<MergedCSTNode, MergeError>,
) {
    let mut forest = Forest::new();
    let base = forest.insert(base);
    let parent_a = forest.insert(parent_a);
    let parent_b = forest.insert(parent_b);

    let matchings_base_parent_a = ordered::calculate_matchings(&forest, base, parent_a);
    let matchings_base_parent_b = ordered::calculate_matchings(&forest, base, parent_b);
    let matchings_parents = ordered::calculate_matchings(&forest, parent_a, parent_b);

    let merged_tree = ordered_merge(
        &forest,
        parent_a,
        parent_b,
        &matchings_base_parent_a,
        &matchings_base_parent_b,
        &matchings_parents,
    );
    let merged_tree_swap = ordered_merge(
        &forest,
        parent_b,
        parent_a,
        &matchings_base_parent_b,
        &matchings_base_parent_a,
        &matchings_parents,
    );
    (merged_tree, merged_tree_swap)
}

fn assert_merge_is_correct_and_idempotent_with_respect_to_parent_side(
    base: &CSTNode,
    parent_a: &CSTNode,
    parent_b: &CSTNode,
    expected_merge: &MergedCSTNode,
) {
    let (merged_tree, merged_tree_swap) = merge_of_parents(base, parent_a, parent_b);

    assert_eq!(expected_merge, &merged_tree.unwrap());
    assert_eq!(expected_merge, &merged_tree_swap.unwrap());
}

fn assert_merge_output_is(
    base: &CSTNode,
    parent_a: &CSTNode,
    parent_b: &CSTNode,
    expected_merge: &MergedCSTNode,
) {
    let (merged_tree, _) = merge_of_parents(base, parent_a, parent_b);

    assert_eq!(expected_merge, &merged_tree.unwrap());
}

#[test]
fn it_merges_non_terminals_if_there_are_non_changes() {
    let tree = non_terminal(
        "kind",
        vec![terminal("kind_a", "value_a"), terminal("kind_b", "value_b")],
    );

    let mut forest = Forest::new();
    let root = forest.insert(&tree);
    let expected_merge = MergedCSTNode::from(&forest, root);
    let matchings = ordered::calculate_matchings(&forest, root, root);

    let merged_tree =
        ordered_merge(&forest, root, root, &matchings, &matchings, &matchings).unwrap();

    assert_eq!(expected_merge, merged_tree);
    assert_eq!(
        merged_non_terminal(
            "kind",
            vec![
                merged_terminal("kind_a", "value_a"),
                merged_terminal("kind_b", "value_b"),
            ],
        ),
        merged_tree
    );
}

#[test]
fn it_merges_non_terminals_if_both_left_and_right_add_the_same_things() {
    let base = non_terminal("kind", vec![]);
    let parent = non_terminal(
        "kind",
        vec![terminal("kind_a", "value_a"), terminal("kind_b", "value_b")],
    );

    let mut forest = Forest::new();
    let base = forest.insert(&base);
    let parent = forest.insert(&parent);
    let expected_merge = MergedCSTNode::from(&forest, parent);

    let matchings_base_parent = ordered::calculate_matchings(&forest, base, parent);
    let matchings_parents = ordered::calculate_matchings(&forest, parent, parent);

    let merged_tree = ordered_merge(
        &forest,
        parent,
        parent,
        &matchings_base_parent,
        &matchings_base_parent,
        &matchings_parents,
    )
    .unwrap();

    assert_eq!(expected_merge, merged_tree);
}

#[test]
fn it_merges_non_terminals_if_only_one_parent_adds_a_node_in_an_initially_empty_children_list() {
    let base = non_terminal("kind", vec![]);
    let initially_empty_parent = non_terminal("kind", vec![]);
    let parent_that_added = non_terminal("kind", vec![terminal("kind_a", "value_a")]);

    let expected_merge = merged_non_terminal("kind", vec![merged_terminal("kind_a", "value_a")]);

    assert_merge_is_correct_and_idempotent_with_respect_to_parent_side(
        &base,
        &initially_empty_parent,
        &parent_that_added,
        &expected_merge,
    )
}

#[test]
fn it_merges_non_terminals_if_only_one_parent_adds_a_node_in_non_empty_children_list() {
    let base = non_terminal("kind", vec![terminal("kind_a", "value_a")]);
    let unchanged_parent = non_terminal("kind", vec![terminal("kind_a", "value_a")]);
    let parent_that_added = non_terminal(
        "kind",
        vec![terminal("kind_a", "value_a"), terminal("kind_b", "value_b")],
    );

    let merge = merged_non_terminal(
        "kind",
        vec![
            merged_terminal("kind_a", "value_a"),
            merged_terminal("kind_b", "value_b"),
        ],
    );

    assert_merge_is_correct_and_idempotent_with_respect_to_parent_side(
        &base,
        &unchanged_parent,
        &parent_that_added,
        &merge,
    )
}

#[test]
fn it_merges_when_one_parent_adds_a_node_and_removes_one_that_was_not_edited_in_the_other() {
    let base = non_terminal("kind", vec![terminal("kind_a", "value_a")]);
    let changed_parent = non_terminal("kind", vec![terminal("kind_b", "value_b")]);
    let unchanged_parent = non_terminal("kind", vec![terminal("kind_a", "value_a")]);

    let expected_merge = merged_non_terminal("kind", vec![merged_terminal("kind_b", "value_b")]);

    assert_merge_is_correct_and_idempotent_with_respect_to_parent_side(
        &base,
        &changed_parent,
        &unchanged_parent,
        &expected_merge,
    )
}

#[test]
fn it_merges_when_one_parent_adds_a_node_and_removes_from_another_that_was_changed() {
    let base = non_terminal(
        "kind",
        vec![non_terminal("subtree", vec![terminal("kind_a", "value_a")])],
    );
    let parent_a = non_terminal(
        "kind",
        vec![non_terminal(
            "another_subtree",
            vec![terminal("kind_b", "value_b")],
        )],
    );
    let parent_b = non_terminal(
        "kind",
        vec![non_terminal("subtree", vec![terminal("kind_c", "value_c")])],
    );

    let (merged_tree, merged_tree_swap) = merge_of_parents(&base, &parent_a, &parent_b);

    assert_eq!(
        merged_non_terminal(
            "kind",
            vec![conflict(
                Some(merged_non_terminal(
                    "another_subtree",
                    vec![merged_terminal("kind_b", "value_b")],
                )),
                Some(merged_non_terminal(
                    "subtree",
                    vec![merged_terminal("kind_c", "value_c")],
                )),
            )],
        ),
        merged_tree.unwrap()
    );

    assert_eq!(
        merged_non_terminal(
            "kind",
            vec![conflict(
                Some(merged_non_terminal(
                    "subtree",
                    vec![merged_terminal("kind_c", "value_c")],
                )),
                Some(merged_non_terminal(
                    "another_subtree",
                    vec![merged_terminal("kind_b", "value_b")],
                )),
            )],
        ),
        merged_tree_swap.unwrap()
    );
}

#[test]
fn if_both_parents_add_different_nodes_then_we_have_a_conflict() {
    let base = non_terminal("kind", vec![]);
    let left = non_terminal("kind", vec![terminal("kind_a", "value_a")]);
    let right = non_terminal("kind", vec![terminal("kind_b", "value_b")]);

    assert_merge_output_is(
        &base,
        &left,
        &right,
        &merged_non_terminal(
            "kind",
            vec![conflict(
                Some(merged_terminal("kind_a", "value_a")),
                Some(merged_terminal("kind_b", "value_b")),
            )],
        ),
    )
}

#[test]
fn it_merges_when_one_parent_removes_a_node_that_was_not_changed_in_another_parent() {
    let base = non_terminal(
        "kind",
        vec![terminal("kind_a", "value_a"), terminal("kind_b", "value_b")],
    );
    let left = non_terminal(
        "kind",
        vec![terminal("kind_a", "value_a"), terminal("kind_b", "value_b")],
    );
    let right = non_terminal("kind", vec![terminal("kind_b", "value_b")]);

    let expected_merge = merged_non_terminal("kind", vec![merged_terminal("kind_b", "value_b")]);

    assert_merge_output_is(&base, &left, &right, &expected_merge)
}

#[test]
fn it_detects_a_conflict_when_one_parent_removes_a_node_that_was_changed_in_another_parent() {
    let base = non_terminal(
        "kind",
        vec![
            non_terminal("subtree", vec![terminal("kind_b", "value_b")]),
            terminal("kind_a", "value_a"),
        ],
    );
    let left = non_terminal(
        "kind",
        vec![
            non_terminal("subtree", vec![terminal("kind_c", "value_c")]),
            terminal("kind_a", "value_a"),
        ],
    );
    let right = non_terminal("kind", vec![terminal("kind_a", "value_a")]);

    assert_merge_output_is(
        &base,
        &left,
        &right,
        &merged_non_terminal(
            "kind",
            vec![
                conflict(
                    Some(merged_non_terminal(
                        "subtree",
                        vec![merged_terminal("kind_c", "value_c")],
                    )),
                    None,
                ),
                merged_terminal("kind_a", "value_a"),
            ],
        ),
    );

    assert_merge_output_is(
        &base,
        &right,
        &left,
        &merged_non_terminal(
            "kind",
            vec![
                conflict(
                    None,
                    Some(merged_non_terminal(
                        "subtree",
                        vec![merged_terminal("kind_c", "value_c")],
                    )),
                ),
                merged_terminal("kind_a", "value_a"),
            ],
        ),
    )
}

#[test]
fn it_merges_when_a_parent_adds_a_node() {
    let base = non_terminal(
        "kind",
        vec![terminal("kind_a", "value_a"), terminal("kind_c", "value_c")],
    );
    let unchanged_parent = non_terminal(
        "kind",
        vec![terminal("kind_a", "value_a"), terminal("kind_c", "value_c")],
    );
    let changed_parent = non_terminal(
        "kind",
        vec![
            terminal("kind_a", "value_a"),
            terminal("kind_b", "value_b"),
            terminal("kind_c", "value_c"),
        ],
    );

    let expected_merge = merged_non_terminal(
        "kind",
        vec![
            merged_terminal("kind_a", "value_a"),
            merged_terminal("kind_b", "value_b"),
            merged_terminal("kind_c", "value_c"),
        ],
    );

    assert_merge_is_correct_and_idempotent_with_respect_to_parent_side(
        &base,
        &unchanged_parent,
        &changed_parent,
        &expected_merge,
    )
}

#[test]
fn it_merges_when_one_parent_removes_and_add_a_node() {
    let base = non_terminal("kind", vec![terminal("kind_b", "value_b")]);
    let parent_a = non_terminal("kind", vec![terminal("kind_a", "value_a")]);
    let parent_b = non_terminal(
        "kind",
        vec![terminal("kind_b", "value_b"), terminal("kind_a", "value_a")],
    );

    let expected_merge = merged_non_terminal("kind", vec![merged_terminal("kind_a", "value_a")]);

    assert_merge_is_correct_and_idempotent_with_respect_to_parent_side(
        &base,
        &parent_a,
        &parent_b,
        &expected_merge,
    )
}

#[test]
fn it_conflicts_when_one_parent_removes_and_add_a_node() {
    let base = non_terminal(
        "kind",
        vec![non_terminal("subtree", vec![terminal("kind_b", "value_b")])],
    );
    let parent_a = non_terminal("kind", vec![terminal("kind_a", "value_a")]);
    let parent_b = non_terminal(
        "kind",
        vec![
            non_terminal("subtree", vec![terminal("kind_b", "value_c")]),
            terminal("kind_a", "value_a"),
        ],
    );

    assert_merge_output_is(
        &base,
        &parent_a,
        &parent_b,
        &merged_non_terminal(
            "kind",
            vec![
                conflict(
                    None,
                    Some(merged_non_terminal(
                        "subtree",
                        vec![merged_terminal("kind_b", "value_c")],
                    )),
                ),
                merged_terminal("kind_a", "value_a"),
            ],
        ),
    );
    assert_merge_output_is(
        &base,
        &parent_b,
        &parent_a,
        &merged_non_terminal(
            "kind",
            vec![
                conflict(
                    Some(merged_non_terminal(
                        "subtree",
                        vec![merged_terminal("kind_b", "value_c")],
                    )),
                    None,
                ),
                merged_terminal("kind_a", "value_a"),
            ],
        ),
    )
}

#[test]
fn it_merges_when_a_parent_adds_one_node() {
    let base = non_terminal("kind", vec![]);
    let parent_a = non_terminal("kind", vec![terminal("kind_a", "value_a")]);
    let parent_b = non_terminal(
        "kind",
        vec![terminal("kind_c", "value_c"), terminal("kind_a", "value_a")],
    );

    let expected_merge = merged_non_terminal(
        "kind",
        vec![
            merged_terminal("kind_c", "value_c"),
            merged_terminal("kind_a", "value_a"),
        ],
    );

    assert_merge_is_correct_and_idempotent_with_respect_to_parent_side(
        &base,
        &parent_a,
        &parent_b,
        &expected_merge,
    )
}

#[test]
fn it_does_not_detect_a_conflict_if_am_merging_two_subtrees_that_have_not_changed_mutually() {
    let base = non_terminal(
        "kind",
        vec![terminal("kind_b", "value_b"), terminal("kind_c", "value_c")],
    );
    let parent_a = non_terminal("kind", vec![terminal("kind_b", "value_b")]);
    let parent_b = non_terminal("kind", vec![terminal("kind_c", "value_c")]);

    let expected_merge = merged_non_terminal("kind", vec![]);

    assert_merge_is_correct_and_idempotent_with_respect_to_parent_side(
        &base,
        &parent_a,
        &parent_b,
        &expected_merge,
    )
}

#[test]
fn it_detects_a_conflict_if_am_merging_two_subtrees_that_delete_a_node_that_was_changed_in_another_parent(
) {
    let base = non_terminal(
        "kind",
        vec![
            non_terminal("subtree_a", vec![terminal("kind_b", "value_b")]),
            non_terminal("subtree_b", vec![terminal("kind_c", "value_c")]),
        ],
    );
    let parent_a = non_terminal(
        "kind",
        vec![non_terminal(
            "subtree_b",
            vec![terminal("kind_c", "value_c")],
        )],
    );
    let parent_b = non_terminal(
        "kind",
        vec![non_terminal(
            "subtree_a",
            vec![terminal("kind_a", "value_c")],
        )],
    );

    assert_merge_output_is(
        &base,
        &parent_a,
        &parent_b,
        &merged_non_terminal(
            "kind",
            vec![conflict(
                None,
                Some(merged_non_terminal(
                    "subtree_a",
                    vec![merged_terminal("kind_a", "value_c")],
                )),
            )],
        ),
    );
    assert_merge_output_is(
        &base,
        &parent_b,
        &parent_a,
        &merged_non_terminal(
            "kind",
            vec![conflict(
                Some(merged_non_terminal(
                    "subtree_a",
                    vec![merged_terminal("kind_a", "value_c")],
                )),
                None,
            )],
        ),
    )
}

#[test]
fn ordered_merge_i_get_an_error_if_i_try_to_merge_nodes_of_different_kinds() {
    let mut forest = Forest::new();
    let kind_a = forest.insert(&CSTNode::NonTerminal(NonTerminal {
        kind: "kind_a".to_string(),
        children: vec![],
        are_children_unordered: true,
        ..Default::default()
    }));
    let kind_b = forest.insert(&CSTNode::NonTerminal(NonTerminal {
        kind: "kind_b".to_string(),
        children: vec![],
        are_children_unordered: true,
        ..Default::default()
    }));

    let matchings = Matchings::empty();
    let result = ordered_merge(&forest, kind_a, kind_b, &matchings, &matchings, &matchings);

    assert!(result.is_err());
    assert_eq!(
        result.unwrap_err(),
        MergeError::NodesWithDifferentKinds("kind_a".to_string(), "kind_b".to_string())
    );
}

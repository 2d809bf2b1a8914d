use structured_merge::forest::Forest;
use structured_merge::matching::calculate_matchings;
use structured_merge::matching::matching_entry::{Matching, MatchingEntry};
use structured_merge::matching::matchings::{MatchedPair, Matchings};
use structured_merge::matching::ordered;
use structured_merge::matching::unordered;
use structured_merge::model::{CSTNode, NonTerminal, Point, Terminal};

fn leaf(kind: &str, value: &str) -> CSTNode {
    CSTNode::Terminal(Terminal {
        kind: kind.to_string(),
        value: value.to_string(),
        start_position: Point { row: 0, column: 0 },
        end_position: Point { row: 0, column: 7 },
        leading_white_space: None,
    })
}

fn inner(kind: &str, children: Vec<CSTNode>) -> CSTNode {
    CSTNode::NonTerminal(NonTerminal {
        kind: kind.to_string(),
        children,
        start_position: Point { row: 0, column: 0 },
        end_position: Point { row: 0, column: 7 },
        leading_white_space: None,
        are_children_unordered: false,
        identifier: None,
        delimiters: None,
    })
}

fn unordered_inner(kind: &str, identifier: Option<Vec<&str>>, children: Vec<CSTNode>) -> CSTNode {
    CSTNode::NonTerminal(NonTerminal {
        kind: kind.to_string(),
        children,
        start_position: Point { row: 0, column: 0 },
        end_position: Point { row: 0, column: 7 },
        leading_white_space: None,
        are_children_unordered: true,
        identifier: identifier.map(|parts| parts.iter().map(|part| part.to_string()).collect()),
        delimiters: None,
    })
}

fn child_of(forest: &Forest, parent: usize, index: usize) -> usize {
    forest.node(parent).children()[index]
}

#[test]
fn two_terminal_nodes_matches_with_a_score_of_one_if_they_have_the_same_kind_and_value() {
    let mut forest = Forest::new();
    let left = forest.insert(&leaf("kind", "value"));
    let right = forest.insert(&leaf("kind", "value"));

    let matchings = calculate_matchings(&forest, left, right);

    let left_right_matching = matchings.get_matching_entry(left, right).unwrap();
    assert_eq!(1, left_right_matching.score);
    assert!(left_right_matching.is_perfect_match);
}

#[test]
fn returns_none_if_a_matching_for_the_node_is_not_found() {
    let mut forest = Forest::new();
    let a_node = forest.insert(&leaf("kind", "value"));

    assert_eq!(None, Matchings::empty().find_matching_for(a_node))
}

#[test]
fn returns_some_match_if_a_matching_for_the_node_is_found() {
    let mut forest = Forest::new();
    let a_node = forest.insert(&leaf("kind", "value"));

    let matchings = vec![MatchedPair {
        left: a_node,
        right: a_node,
        entry: MatchingEntry::new(&forest, a_node, a_node, 1),
    }];

    assert_eq!(
        Some(Matching {
            matching_node: a_node,
            score: 1,
            is_perfect_match: true
        }),
        Matchings::new(matchings).find_matching_for(a_node)
    )
}

#[test]
fn it_matches_deep_nodes_as_well() {
    let mut forest = Forest::new();
    let left = forest.insert(&inner("kind_a", vec![leaf("kind_b", "value_b")]));
    let right = forest.insert(&inner("kind_a", vec![leaf("kind_b", "value_b")]));

    let matchings = ordered::calculate_matchings(&forest, left, right);

    let child_matching =
        matchings.get_matching_entry(child_of(&forest, left, 0), child_of(&forest, right, 0));
    assert!(child_matching.is_some());
    assert_eq!(1, child_matching.unwrap().score);
    assert!(child_matching.unwrap().is_perfect_match)
}

#[test]
fn if_no_match_is_found_it_returns_none() {
    let mut forest = Forest::new();
    let left = forest.insert(&inner("kind_a", vec![leaf("kind_b", "value_b")]));
    let right = forest.insert(&inner("kind_a", vec![leaf("kind_c", "value_c")]));

    let matchings = ordered::calculate_matchings(&forest, left, right);
    assert!(matchings
        .get_matching_entry(child_of(&forest, left, 0), child_of(&forest, right, 0))
        .is_none())
}

#[test]
fn the_matching_between_two_subtrees_is_the_sum_of_the_matchings_plus_the_root() {
    let mut forest = Forest::new();
    let left = forest.insert(&inner("kind_a", vec![leaf("kind_b", "value_b")]));
    let right = forest.insert(&inner(
        "kind_a",
        vec![leaf("kind_b", "value_b"), leaf("kind_c", "value_c")],
    ));

    let matchings = ordered::calculate_matchings(&forest, left, right);

    let left_right_matchings = matchings.get_matching_entry(left, right).unwrap();
    assert_eq!(2, left_right_matchings.score);
    assert!(!left_right_matchings.is_perfect_match);
}

#[test]
fn perfect_matching_deep_nodes() {
    let mut forest = Forest::new();
    let left = forest.insert(&inner("kind_a", vec![leaf("kind_b", "value_b")]));
    let right = forest.insert(&inner("kind_a", vec![leaf("kind_b", "value_b")]));

    let matchings = ordered::calculate_matchings(&forest, left, right);

    let left_right_matchings = matchings.get_matching_entry(left, right).unwrap();
    assert_eq!(2, left_right_matchings.score);
    assert!(left_right_matchings.is_perfect_match);
}

#[test]
fn perfect_matching_deeper_nodes() {
    let mut forest = Forest::new();
    let left = forest.insert(&inner(
        "kind_a",
        vec![inner("intermediate", vec![leaf("kind_b", "value_b")])],
    ));
    let right = forest.insert(&inner(
        "kind_a",
        vec![inner("intermediate", vec![leaf("kind_b", "value_b")])],
    ));

    let matchings = ordered::calculate_matchings(&forest, left, right);

    let intermediate_matching = matchings
        .get_matching_entry(child_of(&forest, left, 0), child_of(&forest, right, 0))
        .unwrap();
    assert_eq!(2, intermediate_matching.score);
    assert!(intermediate_matching.is_perfect_match);

    let left_right_matching = matchings.get_matching_entry(left, right).unwrap();
    assert_eq!(3, left_right_matching.score);
    assert!(left_right_matching.is_perfect_match);
}

#[test]
fn nodes_that_cannot_correspond_get_no_matchings() {
    let mut forest = Forest::new();
    let left = forest.insert(&leaf("kind", "value"));
    let right = forest.insert(&leaf("kind", "other"));
    let interior = forest.insert(&inner("kind", vec![]));

    assert!(calculate_matchings(&forest, left, right).is_empty());
    assert!(calculate_matchings(&forest, left, interior).is_empty());
    assert!(calculate_matchings(&forest, interior, left).is_empty());
}

#[test]
fn the_alignment_keeps_the_order_of_the_children() {
    let mut forest = Forest::new();
    let left = forest.insert(&inner(
        "list",
        vec![leaf("a", "a"), leaf("b", "b"), leaf("c", "c")],
    ));
    let right = forest.insert(&inner(
        "list",
        vec![leaf("c", "c"), leaf("a", "a"), leaf("b", "b")],
    ));

    let matchings = calculate_matchings(&forest, left, right);

    assert_eq!(3, matchings.get_matching_entry(left, right).unwrap().score);
    assert!(matchings
        .get_matching_entry(child_of(&forest, left, 0), child_of(&forest, right, 1))
        .is_some());
    assert!(matchings
        .get_matching_entry(child_of(&forest, left, 1), child_of(&forest, right, 2))
        .is_some());
    assert!(matchings.find_matching_for(child_of(&forest, left, 2)).is_none());
    assert!(matchings.find_matching_for(child_of(&forest, right, 0)).is_none());
}

#[test]
fn of_two_equal_candidates_the_alignment_takes_the_first() {
    let mut forest = Forest::new();
    let left = forest.insert(&inner("list", vec![leaf("a", "a"), leaf("a", "a")]));
    let right = forest.insert(&inner("list", vec![leaf("a", "a")]));

    let matchings = calculate_matchings(&forest, left, right);

    assert_eq!(2, matchings.get_matching_entry(left, right).unwrap().score);
    assert_eq!(
        Some(child_of(&forest, left, 0)),
        matchings
            .find_matching_for(child_of(&forest, right, 0))
            .map(|found| found.matching_node)
    );
    assert!(matchings.find_matching_for(child_of(&forest, left, 1)).is_none());
}

#[test]
fn labeled_children_are_paired_by_label_in_any_order() {
    let mut forest = Forest::new();
    let left = forest.insert(&unordered_inner(
        "class_body",
        None,
        vec![
            unordered_inner("method", Some(vec!["a"]), vec![leaf("identifier", "a")]),
            unordered_inner("method", Some(vec!["b"]), vec![leaf("identifier", "b")]),
        ],
    ));
    let right = forest.insert(&unordered_inner(
        "class_body",
        None,
        vec![
            unordered_inner("method", Some(vec!["b"]), vec![leaf("identifier", "b")]),
            unordered_inner("method", Some(vec!["a"]), vec![leaf("identifier", "a")]),
        ],
    ));

    assert!(unordered::all_children_labeled(&forest, left));
    let matchings = calculate_matchings(&forest, left, right);

    let root = matchings.get_matching_entry(left, right).unwrap();
    assert_eq!(5, root.score);
    assert!(!root.is_perfect_match);
    let a_with_a = matchings
        .get_matching_entry(child_of(&forest, left, 0), child_of(&forest, right, 1))
        .unwrap();
    assert_eq!(2, a_with_a.score);
    assert!(a_with_a.is_perfect_match);
    assert_eq!(
        Some(child_of(&forest, right, 0)),
        matchings
            .find_matching_for(child_of(&forest, left, 1))
            .map(|found| found.matching_node)
    );
}

#[test]
fn unlabeled_children_are_paired_by_the_best_assignment() {
    let mut forest = Forest::new();
    let left = forest.insert(&unordered_inner(
        "modifiers",
        None,
        vec![
            inner("block", vec![leaf("x", "x"), leaf("y", "y")]),
            inner("block", vec![leaf("z", "z")]),
        ],
    ));
    let right = forest.insert(&unordered_inner(
        "modifiers",
        None,
        vec![
            inner("block", vec![leaf("z", "z")]),
            inner("block", vec![leaf("x", "x"), leaf("y", "y")]),
            inner("other", vec![leaf("w", "w")]),
        ],
    ));

    assert!(!unordered::all_children_labeled(&forest, left));
    let matchings = calculate_matchings(&forest, left, right);

    assert_eq!(6, matchings.get_matching_entry(left, right).unwrap().score);
    assert_eq!(
        3,
        matchings
            .get_matching_entry(child_of(&forest, left, 0), child_of(&forest, right, 1))
            .unwrap()
            .score
    );
    assert_eq!(
        2,
        matchings
            .get_matching_entry(child_of(&forest, left, 1), child_of(&forest, right, 0))
            .unwrap()
            .score
    );
    assert!(matchings.find_matching_for(child_of(&forest, right, 2)).is_none());
}

#[test]
fn extending_records_the_pairs_in_both_lookups() {
    let entry = MatchingEntry { score: 3, is_perfect_match: false };
    let mut matchings = Matchings::from_single(1, 2, entry);
    matchings.extend(&Matchings::from_single(4, 3, MatchingEntry { score: 1, is_perfect_match: true }));

    assert_eq!(Some(entry), matchings.get_matching_entry(2, 1));
    assert_eq!(Some(entry), matchings.get_matching_entry(1, 2));
    assert_eq!(None, matchings.get_matching_entry(1, 3));
    assert_eq!(
        Some(Matching { matching_node: 4, score: 1, is_perfect_match: true }),
        matchings.find_matching_for(3)
    );
    assert_eq!(
        Some(Matching { matching_node: 1, score: 3, is_perfect_match: false }),
        matchings.find_matching_for(2)
    );
}

#[test]
fn a_tree_is_matched_with_itself_node_by_node() {
    let mut forest = Forest::new();
    let root = forest.insert(&inner(
        "file",
        vec![
            unordered_inner(
                "class_body",
                None,
                vec![
                    leaf("{", "{"),
                    unordered_inner("method", Some(vec!["a"]), vec![leaf("identifier", "a")]),
                    unordered_inner("method", Some(vec!["b"]), vec![leaf("identifier", "b")]),
                    leaf("}", "}"),
                ],
            ),
            leaf(";", ";"),
            leaf(";", ";"),
        ],
    ));

    let matchings = calculate_matchings(&forest, root, root);

    assert_eq!(forest.len(), matchings.len());
    for node in 0..forest.len() {
        let found = matchings.find_matching_for(node).unwrap();
        assert_eq!(node, found.matching_node);
        assert!(found.is_perfect_match);
        assert_eq!((node - forest.node(node).first + 1) as u64, found.score);
    }
}

#[test]
fn children_with_the_same_label_are_paired_whatever_they_score() {
    let mut forest = Forest::new();
    let left = forest.insert(&unordered_inner(
        "body",
        None,
        vec![CSTNode::NonTerminal(NonTerminal {
            kind: "a".to_string(),
            identifier: Some(vec!["x".to_string()]),
            ..Default::default()
        })],
    ));
    let right = forest.insert(&unordered_inner(
        "body",
        None,
        vec![CSTNode::NonTerminal(NonTerminal {
            kind: "b".to_string(),
            identifier: Some(vec!["x".to_string()]),
            ..Default::default()
        })],
    ));

    let matchings = calculate_matchings(&forest, left, right);

    let children = matchings
        .get_matching_entry(child_of(&forest, left, 0), child_of(&forest, right, 0))
        .unwrap();
    assert_eq!(0, children.score);
    assert_eq!(
        Some(child_of(&forest, right, 0)),
        matchings
            .find_matching_for(child_of(&forest, left, 0))
            .map(|found| found.matching_node)
    );
    assert_eq!(1, matchings.get_matching_entry(left, right).unwrap().score);
}

use structured_merge::control::{
    fit_together, merge_trees, run_diff_on_files, run_tool_on_merge_scenario, ExecutionError,
    ExecutionResult,
};
use structured_merge::forest::Forest;
use structured_merge::matching::calculate_matchings;
use structured_merge::model::{CSTNode, Language, Point};
use structured_merge::parsing::{explore_node, ParserConfiguration, RawNode};
use tree_sitter::{Node, Query, QueryCursor, StreamingIterator};

fn identifier_of(node: Node, src: &str, query: &Query) -> Option<Vec<String>> {
    let mut cursor = QueryCursor::new();
    cursor
        .set_byte_range(node.byte_range())
        .matches(query, node, src.as_bytes())
        .next()
        .map(|a_match| {
            a_match
                .captures()
                .iter()
                .flat_map(|capture| capture.node.utf8_text(src.as_bytes()).ok())
                .map(|text| text.to_string())
                .collect()
        })
}

fn raw_node(node: Node, src: &str, queries: &[(String, Query)]) -> RawNode {
    let mut cursor = node.walk();
    RawNode {
        kind: node.kind().to_string(),
        text: src[node.byte_range()].to_string(),
        start_position: Point {
            row: node.start_position().row,
            column: node.start_position().column,
        },
        end_position: Point {
            row: node.end_position().row,
            column: node.end_position().column,
        },
        leading_white_space: node
            .prev_sibling()
            .map(|previous| src[previous.end_byte()..node.start_byte()].to_string()),
        identifier: queries
            .iter()
            .find(|(kind, _)| kind == node.kind())
            .and_then(|(_, query)| identifier_of(node, src, query)),
        children: node
            .children(&mut cursor)
            .map(|child| raw_node(child, src, queries))
            .collect(),
    }
}

fn parse_java(src: &str) -> Result<CSTNode, String> {
    let configuration = ParserConfiguration::from(Language::Java);
    let grammar: tree_sitter::Language = tree_sitter_java::LANGUAGE.into();
    let mut parser = tree_sitter::Parser::new();
    parser.set_language(&grammar).unwrap();
    let parsed = parser.parse(src, None).unwrap();
    let queries: Vec<(String, Query)> = configuration
        .identifier_extractors
        .iter()
        .map(|extractor| {
            (
                extractor.kind.clone(),
                Query::new(&grammar, &extractor.query).unwrap(),
            )
        })
        .collect();
    let root = raw_node(parsed.root_node(), src, &queries);
    Ok(explore_node(&root, &configuration))
}

fn run(base: &str, left: &str, right: &str) -> Result<ExecutionResult, ExecutionError> {
    run_tool_on_merge_scenario(
        base,
        left,
        right,
        &parse_java(base),
        &parse_java(left),
        &parse_java(right),
    )
}

#[test]
fn every_query_of_the_java_configuration_is_accepted_by_the_grammar() {
    let configuration = ParserConfiguration::from(Language::Java);
    let grammar: tree_sitter::Language = tree_sitter_java::LANGUAGE.into();
    assert_eq!(12, configuration.identifier_extractors.len());
    for extractor in configuration.identifier_extractors.iter() {
        assert!(
            Query::new(&grammar, &extractor.query).is_ok(),
            "{}",
            extractor.kind
        );
    }
}

#[test]
fn methods_added_on_both_sides_are_both_kept() {
    let result = run(
        "class C {}",
        "class C { void a(){} }",
        "class C { void b(){} }",
    );

    assert_eq!(
        Ok(ExecutionResult::WithoutConflicts(
            "class C { void a(){} void b(){} }".to_string()
        )),
        result
    );
}

#[test]
fn if_left_equals_base_the_result_is_right() {
    let result = run("class C {}", "class C {}", "class C { int x; }");

    assert_eq!(
        Ok(ExecutionResult::WithoutConflicts(
            "class C { int x; }".to_string()
        )),
        result
    );
}

#[test]
fn if_right_equals_base_the_result_is_left() {
    let result = run("class C {}", "class C { int x; }", "class C {}");

    assert_eq!(
        Ok(ExecutionResult::WithoutConflicts(
            "class C { int x; }".to_string()
        )),
        result
    );
}

#[test]
fn equal_sides_are_returned_before_anything_is_parsed() {
    let unparsed: Result<CSTNode, String> = Err("not parsed".to_string());

    let result = run_tool_on_merge_scenario(
        "class C {",
        "class C {",
        "class C { int x; ",
        &unparsed,
        &unparsed,
        &unparsed,
    );

    assert_eq!(
        Ok(ExecutionResult::WithoutConflicts(
            "class C { int x; ".to_string()
        )),
        result
    );
}

#[test]
fn a_revision_that_was_not_parsed_ends_the_run() {
    let result = run_tool_on_merge_scenario(
        "class C {}",
        "class C { int x; }",
        "class C { int y; }",
        &parse_java("class C {}"),
        &Err("It was not possible to parse the tree.".to_string()),
        &parse_java("class C { int y; }"),
    );

    let error = result.unwrap_err();
    assert_eq!(
        ExecutionError::ParsingError("It was not possible to parse the tree.".to_string()),
        error
    );
    assert_eq!(
        "Parsing error occurred: It was not possible to parse the tree.",
        error.to_string()
    );
}

#[test]
fn the_same_insertion_on_both_sides_is_taken_once() {
    let result = run(
        "class C {}",
        "class C { int x = 1; }",
        "class C { int x = 1; }",
    );

    assert_eq!(
        Ok(ExecutionResult::WithoutConflicts(
            "class C { int x = 1; }".to_string()
        )),
        result
    );
}

#[test]
fn a_reordering_on_the_left_is_kept() {
    let result = run(
        "class C { void a(){} void b(){} }",
        "class C { void b(){} void a(){} }",
        "class C { void a(){} void b(){} }",
    );

    assert_eq!(
        Ok(ExecutionResult::WithoutConflicts(
            "class C { void b(){} void a(){} }".to_string()
        )),
        merge_trees(
            &parse_java("class C { void a(){} void b(){} }").unwrap(),
            &parse_java("class C { void b(){} void a(){} }").unwrap(),
            &parse_java("class C { void a(){} void b(){} }").unwrap(),
        )
    );
    assert_eq!(
        Ok(ExecutionResult::WithoutConflicts(
            "class C { void b(){} void a(){} }".to_string()
        )),
        result
    );
}

#[test]
fn different_edits_to_the_same_method_are_a_conflict() {
    let result = run(
        "class C { int a(){ return 0; } }",
        "class C { int a(){ return 1; } }",
        "class C { int a(){ return 2; } }",
    )
    .unwrap();

    assert_eq!(
        ExecutionResult::WithConflicts(
            "class C { int a(){ return\n<<<<<<<\n1\n=======\n2\n>>>>>>>\n; } }".to_string()
        ),
        result
    );
}

#[test]
fn a_method_deleted_on_one_side_and_changed_on_the_other_is_a_conflict() {
    let base = "class C { int m(){ return 0; } }";
    let deleted = "class C { }";
    let changed = "class C { int m(){ return 1; } }";

    assert_eq!(
        Ok(ExecutionResult::WithConflicts(
            "class C {\n<<<<<<<\n\n=======\nint m(){ return 1; }\n>>>>>>>\n }".to_string()
        )),
        run(base, deleted, changed)
    );
    assert_eq!(
        Ok(ExecutionResult::WithConflicts(
            "class C {\n<<<<<<<\nint m(){ return 1; }\n=======\n\n>>>>>>>\n }".to_string()
        )),
        run(base, changed, deleted)
    );
}

#[test]
fn a_method_deleted_on_one_side_and_kept_on_the_other_is_deleted() {
    let base = "class C { int m(){ return 0; } int n; }";
    let deleted = "class C { int n; }";
    let kept = "class C { int m(){ return 0; } int n; int o; }";

    assert_eq!(
        Ok(ExecutionResult::WithoutConflicts(
            "class C { int n; int o; }".to_string()
        )),
        run(base, deleted, kept)
    );
}

#[test]
fn merging_a_tree_with_itself_gives_its_text() {
    let source = "class C {\n    int x = 1;\n\n    void a() { x = 2; }\n}";
    let tree = parse_java(source).unwrap();

    assert_eq!(
        Ok(ExecutionResult::WithoutConflicts(source.to_string())),
        merge_trees(&tree, &tree, &tree)
    );
}

#[test]
fn two_runs_on_the_same_texts_give_the_same_text() {
    let base = "class C { int m(){ return 0; } void k(){} }";
    let left = "class C { void k(){} int m(){ return 1; } int n; }";
    let right = "class C { int m(){ return 2; } int o; }";

    let first = run(base, left, right);
    let second = run(base, left, right);

    assert!(first.is_ok());
    assert_eq!(first, second);
}

#[test]
fn the_diff_of_two_files_is_the_entry_of_their_roots() {
    let same = run_diff_on_files(
        &parse_java("class C { int x; }"),
        &parse_java("class C { int x; }"),
    )
    .unwrap();
    assert!(same.is_perfect_match);
    assert_eq!(13, same.score);

    let reordered = run_diff_on_files(
        &parse_java("class C { int x; int y; }"),
        &parse_java("class C { int y; int x; }"),
    )
    .unwrap();
    assert!(!reordered.is_perfect_match);
    assert_eq!(19, reordered.score);

    let unparsed = run_diff_on_files(&Err("no".to_string()), &parse_java("class C {}"));
    assert_eq!(Err(ExecutionError::ParsingError("no".to_string())), unparsed);
}

#[test]
fn swapping_the_sides_exchanges_the_sides_of_a_conflict() {
    let base = "class C { int a(){ return 0; } }";
    let one = "class C { int a(){ return 1; } }";
    let two = "class C { int a(){ return 2; } }";

    assert_eq!(
        Ok(ExecutionResult::WithConflicts(
            "class C { int a(){ return\n<<<<<<<\n1\n=======\n2\n>>>>>>>\n; } }".to_string()
        )),
        run(base, one, two)
    );
    assert_eq!(
        Ok(ExecutionResult::WithConflicts(
            "class C { int a(){ return\n<<<<<<<\n2\n=======\n1\n>>>>>>>\n; } }".to_string()
        )),
        run(base, two, one)
    );
}

#[test]
fn additions_to_an_unordered_body_follow_the_left_side() {
    let base = "class C {}";
    let with_a = "class C { void a(){} }";
    let with_b = "class C { void b(){} }";

    assert_eq!(
        Ok(ExecutionResult::WithoutConflicts(
            "class C { void a(){} void b(){} }".to_string()
        )),
        run(base, with_a, with_b)
    );
    assert_eq!(
        Ok(ExecutionResult::WithoutConflicts(
            "class C { void b(){} void a(){} }".to_string()
        )),
        run(base, with_b, with_a)
    );
}

#[test]
fn trees_are_counted_before_they_are_merged() {
    let tree = parse_java("class C { int x; }").unwrap();

    assert_eq!(Some(13), tree.size_within(13));
    assert_eq!(Some(13), tree.size_within(100));
    assert_eq!(None, tree.size_within(12));
    assert_eq!(None, tree.size_within(0));
    assert!(fit_together(&tree, &tree, &tree));
}

#[test]
fn the_trees_of_equal_texts_are_merged_in_the_order_of_the_left_side() {
    let base = "class C { void a(){} void b(){} }";
    let reordered = "class C { void b(){} void a(){} }";

    assert_eq!(
        Ok(ExecutionResult::WithoutConflicts(base.to_string())),
        merge_trees(
            &parse_java(base).unwrap(),
            &parse_java(base).unwrap(),
            &parse_java(reordered).unwrap(),
        )
    );
    assert_eq!(
        Ok(ExecutionResult::WithoutConflicts(reordered.to_string())),
        run(base, base, reordered)
    );
}

#[test]
fn the_perfect_matching_calculation_is_correct() {
    let left = parse_java(
        r#"""
            public class Main {
                static {
                    int x = 2;
                }

                public static void main() {
                    int a = 0;
                }

                public static void teste() {
                    
                }
            }
        """#,
    )
    .unwrap();

    let right = parse_java(
        r#"""
            public class Main {
                public static void teste() {
                    
                }
                static {
                    int x = 2;
                }

                public static void main() {
                    int a = 0;

                }
            }
        """#,
    )
    .unwrap();

    let mut forest = Forest::new();
    let left = forest.insert(&left);
    let right = forest.insert(&right);

    let matchings = calculate_matchings(&forest, left, right);
    let entry = matchings.get_matching_entry(left, right).unwrap();
    assert!(!entry.is_perfect_match);
    assert_ne!(forest.contents(left), forest.contents(right));

    let with_itself = calculate_matchings(&forest, left, left);
    assert!(with_itself
        .get_matching_entry(left, left)
        .unwrap()
        .is_perfect_match);
}

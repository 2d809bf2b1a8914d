use structured_merge::pretty_printing::{
    pretty_print_tree, MergedCstNode, PrettyPrintableNode, Source, SourceCodes, SourceRange,
};
use tree_sitter::{Parser, Tree};

fn range_of(node: tree_sitter::Node) -> SourceRange {
    SourceRange {
        previous_end: node.prev_sibling().map(|previous| previous.end_byte()),
        start: node.start_byte(),
        end: node.end_byte(),
    }
}

#[test]
fn pretty_print_real_tree_sitter_nodes() {
    let mut parser = Parser::new();
    parser
        .set_language(&tree_sitter_java::LANGUAGE.into())
        .expect("Error loading grammar");

    let src = r#"public class Main {
            public static void main() {

            }
        }"#;
    let tree: Tree = parser.parse(src, None).unwrap();
    let root = tree.root_node();

    let mut cursor = root.walk();
    let children: Vec<SourceRange> = root.children(&mut cursor).map(range_of).collect();

    let mut nodes = Vec::new();
    for child in children.iter() {
        nodes.push(MergedCstNode::Clean(Source::Base, child));
    }

    let source_codes = SourceCodes {
        base: src,
        left: src,
        right: src,
    };
    let result = pretty_print_tree(&nodes, &source_codes);

    println!("{}", result);

    assert_eq!(result, src);
}

#[test]
fn the_children_of_a_node_print_with_the_white_space_between_them() {
    let mut parser = tree_sitter::Parser::new();
    parser
        .set_language(&tree_sitter_java::LANGUAGE.into())
        .unwrap();
    let src = "class   C  {\n\tint x ;\n}";
    let tree = parser.parse(src, None).unwrap();
    let class = tree.root_node().child(0).unwrap();

    let mut cursor = class.walk();
    let children: Vec<SourceRange> = class.children(&mut cursor).map(range_of).collect();
    let nodes: Vec<MergedCstNode<SourceRange>> = children
        .iter()
        .map(|child| MergedCstNode::Clean(Source::Left, child))
        .collect();

    let source_codes = SourceCodes {
        base: "",
        left: src,
        right: "",
    };

    assert_eq!(src, pretty_print_tree(&nodes, &source_codes));
}

#[test]
fn a_conflict_prints_its_sides_between_the_three_markers() {
    let left = "ab cd";
    let right = "x  yz";
    let left_node = SourceRange {
        previous_end: Some(2),
        start: 3,
        end: 5,
    };
    let right_node = SourceRange {
        previous_end: Some(1),
        start: 3,
        end: 5,
    };
    let first = SourceRange {
        previous_end: None,
        start: 0,
        end: 2,
    };
    let source_codes = SourceCodes {
        base: "ab",
        left,
        right,
    };

    let nodes = vec![
        MergedCstNode::Clean(Source::Base, &first),
        MergedCstNode::Conflict(Some(&left_node), Some(&right_node)),
        MergedCstNode::Conflict(None, Some(&right_node)),
        MergedCstNode::Conflict(Some(&left_node), None),
    ];

    assert_eq!(
        "ab\n<<<<<<<\n cd\n=======\n  yz\n>>>>>>>\n\n<<<<<<<\n\n=======\n  yz\n>>>>>>>\n\n<<<<<<<\n cd\n=======\n\n>>>>>>>\n",
        pretty_print_tree(&nodes, &source_codes)
    );
}

#[test]
fn a_node_knows_its_text_and_the_white_space_before_it() {
    let src = "é  ñandú";
    let node = SourceRange {
        previous_end: Some(2),
        start: 4,
        end: 11,
    };

    assert_eq!(Some("  "), node.trailing_white_space(src));
    assert_eq!("ñandú", node.raw_source_code(src));

    let mut out = String::from(">");
    node.write_pretty(src, &mut out);
    assert_eq!(">  ñandú", out);

    let first = SourceRange {
        previous_end: None,
        start: 0,
        end: 2,
    };
    assert_eq!(None, first.trailing_white_space(src));
    assert_eq!("é", first.raw_source_code(src));
}

#[test]
fn the_sources_know_their_length_and_their_texts() {
    let source_codes = SourceCodes {
        base: "é",
        left: "left",
        right: "",
    };

    assert_eq!(6, source_codes.total_len());
    assert_eq!("é", Source::Base.select(&source_codes));
    assert_eq!("left", Source::Left.select(&source_codes));
    assert_eq!("", Source::Right.select(&source_codes));
}

use vstd::prelude::*;
use vstd::string::*;
use crate::forest::{
    clone_option_string, clone_strings, option_delimiters_view, option_string_view,
    option_strings_view,
};
use crate::model::{CSTNode, Delimiters, Language, NonTerminal, Point, Terminal};

verus! {

/// The query that names a constructor: its name and the types of its
/// parameters.
pub const CONSTRUCTOR_QUERY: &'static str =
    "(constructor_declaration name: (identifier) @method_name parameters: (formal_parameters ([ (formal_parameter type: _@parameter_type) (spread_parameter (type_identifier) @parameter_type \"...\" @parameter_type _) ] \",\" ?) *))";

/// The query that names a method: its name and the types of its parameters.
pub const METHOD_QUERY: &'static str =
    "(method_declaration name: (identifier) @method_name parameters: (formal_parameters ([ (formal_parameter type: _@parameter_type) (spread_parameter (type_identifier) @parameter_type \"...\" @parameter_type _) ] \",\" ?) *))";

/// The query that names a field or a variable by its declarator.
pub const DECLARATOR_NAME_QUERY: &'static str = "(variable_declarator name: _ @name)";

/// The query that names an import by what it imports.
pub const IMPORT_QUERY: &'static str =
    "(import_declaration \"import\" \"static\"? @resource (scoped_identifier) @resource (asterisk)? @resource)";

/// The query that names a class.
pub const CLASS_QUERY: &'static str = "(class_declaration (identifier) @class_name)";

/// The query that names an enum.
pub const ENUM_QUERY: &'static str = "(enum_declaration (identifier) @class_name)";

/// The query that names an interface.
pub const INTERFACE_QUERY: &'static str = "(interface_declaration (identifier) @class_name)";

/// The query that names a variable declarator.
pub const DECLARATOR_QUERY: &'static str = "(variable_declarator (identifier) @name)";

/// The query that names the creation of an object by the type created.
pub const CREATION_QUERY: &'static str =
    "(object_creation_expression (type_identifier) @type_identifier)";

/// The query that names an annotation without arguments.
pub const MARKER_ANNOTATION_QUERY: &'static str = "(marker_annotation name: _ @name)";

/// The query that names an annotation.
pub const ANNOTATION_QUERY: &'static str = "(annotation name: _ @name)";

/// The query that names a call by its receiver and its method.
pub const INVOCATION_QUERY: &'static str =
    "(method_invocation object: (identifier) @object name: (identifier) @method)";

/// The query that names a C# constructor.
pub const CSHARP_CONSTRUCTOR_QUERY: &'static str =
    "(constructor_declaration name: (identifier) @method_name parameters: (parameter_list ([ (parameter type: _@parameter_type) ] \",\" ?) *))";

/// The query that names a C# method.
pub const CSHARP_METHOD_QUERY: &'static str =
    "(method_declaration name: (identifier) @method_name parameters: (parameter_list ([ (parameter type: _@parameter_type) ] \",\" ?) *))";

/// The query by which the nodes of one kind get their identifier.
#[derive(Debug, PartialEq, Eq)]
pub struct IdentifierQuery {
    pub kind: String,
    pub query: String,
}

/// The pair of lexemes that bounds the blocks of one kind.
#[derive(Debug, PartialEq, Eq)]
pub struct BlockDelimiters {
    pub kind: String,
    pub delimiters: Delimiters,
}

/// What a parser has to know of a language to build a syntax tree for a
/// merge.
#[derive(Debug, PartialEq, Eq)]
pub struct ParserConfiguration {
    pub language: Language,
    /// The kinds whose nodes are taken as terminals, whatever lies below.
    pub stop_compilation_at: Vec<String>,
    /// The kinds whose children may stand in any order.
    pub kinds_with_unordered_children: Vec<String>,
    /// The lexemes that close a block of unordered children.
    pub block_end_delimiters: Vec<String>,
    /// The queries that give nodes their identifiers.
    pub identifier_extractors: Vec<IdentifierQuery>,
    /// The lexemes that open and close the blocks of a kind.
    pub delimiters: Vec<BlockDelimiters>,
}

/// A configuration as mathematical values.
pub struct ConfigurationView {
    pub language: Language,
    pub stop_compilation_at: Seq<Seq<char>>,
    pub kinds_with_unordered_children: Seq<Seq<char>>,
    pub block_end_delimiters: Seq<Seq<char>>,
    pub identifier_extractors: Seq<(Seq<char>, Seq<char>)>,
    pub delimiters: Seq<(Seq<char>, (Seq<char>, Seq<char>))>,
}

impl View for ParserConfiguration {
    type V = ConfigurationView;

    open spec fn view(&self) -> ConfigurationView {
        ConfigurationView {
            language: self.language,
            stop_compilation_at: self.stop_compilation_at@.map_values(|s: String| s@),
            kinds_with_unordered_children: self.kinds_with_unordered_children@.map_values(
                |s: String| s@,
            ),
            block_end_delimiters: self.block_end_delimiters@.map_values(|s: String| s@),
            identifier_extractors: self.identifier_extractors@.map_values(
                |q: IdentifierQuery| (q.kind@, q.query@),
            ),
            delimiters: self.delimiters@.map_values(
                |d: BlockDelimiters| (d.kind@, (d.delimiters.start@, d.delimiters.end@)),
            ),
        }
    }
}

/// The configuration of the given language.
pub open spec fn configuration_of(language: Language) -> ConfigurationView {
    match language {
        Language::Java => ConfigurationView {
            language,
            stop_compilation_at: seq!["string_literal"@],
            kinds_with_unordered_children: seq![
                "interface_body"@,
                "class_body"@,
                "modifiers"@,
                "enum_body_declarations"@,
            ],
            block_end_delimiters: seq!["}"@],
            identifier_extractors: seq![
                ("constructor_declaration"@, CONSTRUCTOR_QUERY@),
                ("method_declaration"@, METHOD_QUERY@),
                ("field_declaration"@, DECLARATOR_NAME_QUERY@),
                ("import_declaration"@, IMPORT_QUERY@),
                ("class_declaration"@, CLASS_QUERY@),
                ("enum_declaration"@, ENUM_QUERY@),
                ("interface_declaration"@, INTERFACE_QUERY@),
                ("variable_declarator"@, DECLARATOR_QUERY@),
                ("object_creation_expression"@, CREATION_QUERY@),
                ("marker_annotation"@, MARKER_ANNOTATION_QUERY@),
                ("annotation"@, ANNOTATION_QUERY@),
                ("method_invocation"@, INVOCATION_QUERY@),
            ],
            delimiters: seq![
                ("interface_body"@, ("{"@, "}"@)),
                ("class_body"@, ("{"@, "}"@)),
            ],
        },
        Language::CSharp => ConfigurationView {
            language,
            stop_compilation_at: Seq::empty(),
            kinds_with_unordered_children: seq![
                "declaration_list"@,
                "enum_member_declaration_list"@,
            ],
            block_end_delimiters: seq!["}"@],
            identifier_extractors: seq![
                ("constructor_declaration"@, CSHARP_CONSTRUCTOR_QUERY@),
                ("method_declaration"@, CSHARP_METHOD_QUERY@),
                ("class_declaration"@, CLASS_QUERY@),
                ("enum_declaration"@, ENUM_QUERY@),
                ("interface_declaration"@, INTERFACE_QUERY@),
                ("variable_declaration"@, DECLARATOR_QUERY@),
            ],
            delimiters: seq![
                ("declaration_list"@, ("{"@, "}"@)),
                ("enum_member_declaration_list"@, ("{"@, "}"@)),
            ],
        },
    }
}

fn named(kind: &str, query: &str) -> (extractor: IdentifierQuery)
    ensures
        extractor.kind@ == kind@,
        extractor.query@ == query@,
{
    IdentifierQuery { kind: String::from_str(kind), query: String::from_str(query) }
}

fn braces_of(kind: &str) -> (block: BlockDelimiters)
    ensures
        block.kind@ == kind@,
        block.delimiters.start@ == "{"@,
        block.delimiters.end@ == "}"@,
{
    BlockDelimiters {
        kind: String::from_str(kind),
        delimiters: Delimiters { start: String::from_str("{"), end: String::from_str("}") },
    }
}

impl ParserConfiguration {
    /// The configuration of the given language.
    pub fn from(language: Language) -> (configuration: ParserConfiguration)
        ensures
            configuration@ == configuration_of(language),
    {
        match language {
            Language::Java => {
                let mut stop_compilation_at: Vec<String> = Vec::new();
                stop_compilation_at.push(String::from_str("string_literal"));
                let mut kinds_with_unordered_children: Vec<String> = Vec::new();
                kinds_with_unordered_children.push(String::from_str("interface_body"));
                kinds_with_unordered_children.push(String::from_str("class_body"));
                kinds_with_unordered_children.push(String::from_str("modifiers"));
                kinds_with_unordered_children.push(String::from_str("enum_body_declarations"));
                let mut block_end_delimiters: Vec<String> = Vec::new();
                block_end_delimiters.push(String::from_str("}"));
                let mut identifier_extractors: Vec<IdentifierQuery> = Vec::new();
                identifier_extractors.push(named("constructor_declaration", CONSTRUCTOR_QUERY));
                identifier_extractors.push(named("method_declaration", METHOD_QUERY));
                identifier_extractors.push(named("field_declaration", DECLARATOR_NAME_QUERY));
                identifier_extractors.push(named("import_declaration", IMPORT_QUERY));
                identifier_extractors.push(named("class_declaration", CLASS_QUERY));
                identifier_extractors.push(named("enum_declaration", ENUM_QUERY));
                identifier_extractors.push(named("interface_declaration", INTERFACE_QUERY));
                identifier_extractors.push(named("variable_declarator", DECLARATOR_QUERY));
                identifier_extractors.push(named("object_creation_expression", CREATION_QUERY));
                identifier_extractors.push(named("marker_annotation", MARKER_ANNOTATION_QUERY));
                identifier_extractors.push(named("annotation", ANNOTATION_QUERY));
                identifier_extractors.push(named("method_invocation", INVOCATION_QUERY));
                let mut delimiters: Vec<BlockDelimiters> = Vec::new();
                delimiters.push(braces_of("interface_body"));
                delimiters.push(braces_of("class_body"));
                let configuration = ParserConfiguration {
                    language,
                    stop_compilation_at,
                    kinds_with_unordered_children,
                    block_end_delimiters,
                    identifier_extractors,
                    delimiters,
                };
                proof {
                    let expected = configuration_of(language);
                    assert(configuration@.stop_compilation_at =~= expected.stop_compilation_at);
                    assert(configuration@.kinds_with_unordered_children
                        =~= expected.kinds_with_unordered_children);
                    assert(configuration@.block_end_delimiters =~= expected.block_end_delimiters);
                    assert(configuration@.identifier_extractors
                        =~= expected.identifier_extractors);
                    assert(configuration@.delimiters =~= expected.delimiters);
                }
                configuration
            },
            Language::CSharp => {
                let stop_compilation_at: Vec<String> = Vec::new();
                let mut kinds_with_unordered_children: Vec<String> = Vec::new();
                kinds_with_unordered_children.push(String::from_str("declaration_list"));
                kinds_with_unordered_children.push(
                    String::from_str("enum_member_declaration_list"),
                );
                let mut block_end_delimiters: Vec<String> = Vec::new();
                block_end_delimiters.push(String::from_str("}"));
                let mut identifier_extractors: Vec<IdentifierQuery> = Vec::new();
                identifier_extractors.push(
                    named("constructor_declaration", CSHARP_CONSTRUCTOR_QUERY),
                );
                identifier_extractors.push(named("method_declaration", CSHARP_METHOD_QUERY));
                identifier_extractors.push(named("class_declaration", CLASS_QUERY));
                identifier_extractors.push(named("enum_declaration", ENUM_QUERY));
                identifier_extractors.push(named("interface_declaration", INTERFACE_QUERY));
                identifier_extractors.push(named("variable_declaration", DECLARATOR_QUERY));
                let mut delimiters: Vec<BlockDelimiters> = Vec::new();
                delimiters.push(braces_of("declaration_list"));
                delimiters.push(braces_of("enum_member_declaration_list"));
                let configuration = ParserConfiguration {
                    language,
                    stop_compilation_at,
                    kinds_with_unordered_children,
                    block_end_delimiters,
                    identifier_extractors,
                    delimiters,
                };
                proof {
                    let expected = configuration_of(language);
                    assert(configuration@.stop_compilation_at =~= expected.stop_compilation_at);
                    assert(configuration@.kinds_with_unordered_children
                        =~= expected.kinds_with_unordered_children);
                    assert(configuration@.block_end_delimiters =~= expected.block_end_delimiters);
                    assert(configuration@.identifier_extractors
                        =~= expected.identifier_extractors);
                    assert(configuration@.delimiters =~= expected.delimiters);
                }
                configuration
            },
        }
    }
}

/// A node as a parser library hands it over: its kind, its text, where it
/// lies, the white space before it, the identifier that the query of its kind
/// gave, if there is one, and its children.
#[derive(Debug, PartialEq, Eq, Default)]
pub struct RawNode {
    pub kind: String,
    pub text: String,
    pub start_position: Point,
    pub end_position: Point,
    pub leading_white_space: Option<String>,
    pub identifier: Option<Vec<String>>,
    pub children: Vec<RawNode>,
}

/// The delimiters that the configuration gives to the blocks of `kind`: those
/// of the first entry for that kind.
pub open spec fn delimiters_for(
    delimiters: Seq<(Seq<char>, (Seq<char>, Seq<char>))>,
    kind: Seq<char>,
) -> Option<(Seq<char>, Seq<char>)>
    decreases delimiters.len(),
{
    if delimiters.len() == 0 {
        None
    } else if delimiters[0].0 == kind {
        Some(delimiters[0].1)
    } else {
        delimiters_for(delimiters.drop_first(), kind)
    }
}

/// The syntax tree that stands for `raw` under `configuration`. A node
/// without children, or of a kind at which the configuration stops, is a
/// terminal that holds the node's text. Any other node is an interior node
/// over the trees of its children; its kind decides whether the children may
/// stand in any order and which delimiters bound them.
pub open spec fn explored(raw: RawNode, configuration: ConfigurationView) -> crate::model::SyntaxTree
    decreases raw,
{
    if raw.children@.len() == 0 || configuration.stop_compilation_at.contains(raw.kind@) {
        crate::model::SyntaxTree::Terminal {
            kind: raw.kind@,
            value: raw.text@,
            start_position: raw.start_position,
            end_position: raw.end_position,
            leading_white_space: option_string_view(raw.leading_white_space),
        }
    } else {
        crate::model::SyntaxTree::NonTerminal {
            kind: raw.kind@,
            children: explored_all(raw.children@, configuration),
            start_position: raw.start_position,
            end_position: raw.end_position,
            leading_white_space: option_string_view(raw.leading_white_space),
            are_children_unordered: configuration.kinds_with_unordered_children.contains(
                raw.kind@,
            ),
            identifier: option_strings_view(raw.identifier),
            delimiters: delimiters_for(configuration.delimiters, raw.kind@),
        }
    }
}

/// The syntax trees that stand for a sequence of raw nodes.
pub open spec fn explored_all(nodes: Seq<RawNode>, configuration: ConfigurationView) -> Seq<
    crate::model::SyntaxTree,
>
    decreases nodes,
{
    if nodes.len() == 0 {
        Seq::empty()
    } else {
        explored_all(nodes.drop_last(), configuration).push(explored(nodes.last(), configuration))
    }
}

/// Whether `kind` is one of `kinds`.
pub fn contains_kind(kinds: &Vec<String>, kind: &String) -> (found: bool)
    ensures
        found == kinds@.map_values(|s: String| s@).contains(kind@),
{
    let ghost views = kinds@.map_values(|s: String| s@);
    let mut k: usize = 0;
    while k < kinds.len()
        invariant
            k <= kinds.len(),
            views == kinds@.map_values(|s: String| s@),
            forall|i: int| 0 <= i < k ==> views[i] != kind@,
        decreases kinds.len() - k,
    {
        if kinds[k] == *kind {
            assert(views[k as int] == kind@);
            return true;
        }
        k += 1;
    }
    false
}

impl ParserConfiguration {
    /// The delimiters that bound the blocks of `kind`, if the configuration
    /// names any.
    pub fn delimiters_of(&self, kind: &String) -> (found: Option<Delimiters>)
        ensures
            option_delimiters_view(found) == delimiters_for(self@.delimiters, kind@),
    {
        let ghost all = self@.delimiters;
        let mut k: usize = 0;
        proof {
            assert(all.skip(0) =~= all);
        }
        while k < self.delimiters.len()
            invariant
                k <= self.delimiters.len(),
                all == self@.delimiters,
                delimiters_for(all, kind@) == delimiters_for(all.skip(k as int), kind@),
            decreases self.delimiters.len() - k,
        {
            proof {
                assert(all.skip(k as int).drop_first() =~= all.skip(k + 1));
                assert(all.skip(k as int)[0] == all[k as int]);
            }
            if self.delimiters[k].kind == *kind {
                return Some(
                    Delimiters {
                        start: self.delimiters[k].delimiters.start.clone(),
                        end: self.delimiters[k].delimiters.end.clone(),
                    },
                );
            }
            k += 1;
        }
        None
    }
}

/// Builds the syntax tree that stands for `raw` under `configuration`.
pub fn explore_node(raw: &RawNode, configuration: &ParserConfiguration) -> (tree: CSTNode)
    ensures
        tree@ == explored(*raw, configuration@),
    decreases raw, 1nat,
{
    if raw.children.len() == 0 || contains_kind(&configuration.stop_compilation_at, &raw.kind) {
        CSTNode::Terminal(
            Terminal {
                kind: raw.kind.clone(),
                value: raw.text.clone(),
                start_position: raw.start_position,
                end_position: raw.end_position,
                leading_white_space: clone_option_string(&raw.leading_white_space),
            },
        )
    } else {
        let children = explore_all(&raw.children, configuration);
        CSTNode::NonTerminal(
            NonTerminal {
                kind: raw.kind.clone(),
                children,
                start_position: raw.start_position,
                end_position: raw.end_position,
                leading_white_space: clone_option_string(&raw.leading_white_space),
                are_children_unordered: contains_kind(
                    &configuration.kinds_with_unordered_children,
                    &raw.kind,
                ),
                identifier: match &raw.identifier {
                    Some(parts) => Some(clone_strings(parts)),
                    None => None,
                },
                delimiters: configuration.delimiters_of(&raw.kind),
            },
        )
    }
}

fn explore_all(nodes: &Vec<RawNode>, configuration: &ParserConfiguration) -> (trees: Vec<CSTNode>)
    ensures
        CSTNode::views(trees@) == explored_all(nodes@, configuration@),
    decreases nodes, 0nat,
{
    let mut trees: Vec<CSTNode> = Vec::new();
    let mut k: usize = 0;
    proof {
        assert(nodes@.take(0) =~= Seq::<RawNode>::empty());
    }
    while k < nodes.len()
        invariant
            k <= nodes.len(),
            CSTNode::views(trees@) == explored_all(nodes@.take(k as int), configuration@),
        decreases nodes.len() - k,
    {
        let tree = explore_node(&nodes[k], configuration);
        proof {
            assert(nodes@.take(k + 1).drop_last() =~= nodes@.take(k as int));
            assert(trees@.push(tree).drop_last() =~= trees@);
        }
        trees.push(tree);
        k += 1;
    }
    proof {
        assert(nodes@.take(k as int) =~= nodes@);
    }
    trees
}

} // verus!

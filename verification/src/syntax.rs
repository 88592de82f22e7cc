//! The parser's types and calls, as far as the extractor uses them. A syntax
//! tree is modelled as a list of nodes of plain values, and a node of the
//! parser as a place in that list. What the parser makes of a text is
//! named, not described, and each call is tied to the names.

use crate::extractor::Extractor;
use crate::symbol::RangeWrapper;
use vstd::prelude::*;

verus! {

#[verifier::external_type_specification]
#[verifier::external_body]
pub struct ExRange(tree_sitter::Range);

#[verifier::external_type_specification]
#[verifier::external_body]
pub struct ExLanguage(tree_sitter::Language);

#[verifier::external_type_specification]
#[verifier::external_body]
pub struct ExParser(tree_sitter::Parser);

#[verifier::external_type_specification]
#[verifier::external_body]
pub struct ExTree(tree_sitter::Tree);

#[verifier::external_type_specification]
#[verifier::external_body]
pub struct ExNode<'a>(tree_sitter::Node<'a>);

#[verifier::external_type_specification]
#[verifier::external_body]
pub struct ExQuery(tree_sitter::Query);

#[verifier::external_type_specification]
#[verifier::external_body]
pub struct ExQueryCursor(tree_sitter::QueryCursor);

#[verifier::external_type_specification]
#[verifier::external_body]
pub struct ExLanguageError(tree_sitter::LanguageError);

#[verifier::external_type_specification]
#[verifier::external_body]
pub struct ExQueryError(tree_sitter::QueryError);

/// A node of a syntax tree as plain values. Nodes are told apart by their
/// index in the list of the tree's nodes.
pub struct SyntaxNode {
    /// The name of the node's kind in the grammar.
    pub kind: Seq<char>,
    /// The node's extent in the source.
    pub range: RangeWrapper,
    /// The node directly above, if any.
    pub parent: Option<int>,
    /// The node's children in their order; a position may hold no node.
    pub children: Seq<Option<int>>,
    /// The first child in each field that the node has.
    pub fields: Map<Seq<char>, int>,
}

/// A syntax tree as plain values: the grammar and the text that it was
/// parsed with, and its nodes.
pub struct SyntaxTree {
    pub grammar: int,
    pub source: Seq<char>,
    pub nodes: Seq<SyntaxNode>,
}

/// Where a node of the parser stands: the nodes of its tree, and its own
/// index among them.
pub struct Place {
    pub nodes: Seq<SyntaxNode>,
    pub index: int,
}

/// The grammar of a language, as a number that tells grammars apart.
pub uninterp spec fn grammar_of(language: Extractor) -> int;

/// The number of the grammar that a `Language` holds.
pub uninterp spec fn grammar_id(language: tree_sitter::Language) -> int;

/// Whether a grammar was generated for a version that this parser reads.
pub uninterp spec fn grammar_fits(grammar: int) -> bool;

/// Whether a parser is as it was made: it has no grammar and no setting.
pub uninterp spec fn parser_is_new(parser: tree_sitter::Parser) -> bool;

/// The grammar of a parser that was given one and nothing else since it was
/// made; none for any other parser.
pub uninterp spec fn parser_grammar(parser: tree_sitter::Parser) -> Option<int>;

/// The nodes of the syntax tree that a parser with the grammar `grammar`
/// makes of `source`, if it makes one.
pub uninterp spec fn syntax_of(grammar: int, source: Seq<char>) -> Option<Seq<SyntaxNode>>;

/// What a `Tree` holds.
pub uninterp spec fn tree_view(tree: tree_sitter::Tree) -> SyntaxTree;

/// Whether a text is a query of a grammar.
pub uninterp spec fn is_query(grammar: int, text: Seq<char>) -> bool;

/// The grammar and the text that a `Query` was compiled from.
pub uninterp spec fn query_view(query: tree_sitter::Query) -> (int, Seq<char>);

/// Whether a cursor is as it was made: it has run no query and has no limits
/// set.
pub uninterp spec fn cursor_is_fresh(cursor: tree_sitter::QueryCursor) -> bool;

/// The matches of the query `text` in the whole tree of `source`, both read
/// with the grammar `grammar`, in the order in which a fresh cursor finds
/// them: each match as the indices of the nodes of its captures.
pub uninterp spec fn matches_of(grammar: int, text: Seq<char>, source: Seq<char>) -> Seq<Seq<int>>;

/// Where a `Node` stands.
pub uninterp spec fn node_place(node: tree_sitter::Node) -> Place;

/// The tree that a `Node` belongs to, as a number that tells the trees of a
/// process apart. Two trees of one text are two trees.
pub uninterp spec fn node_owner(node: tree_sitter::Node) -> int;

/// The fields of a `Range` as plain values.
pub uninterp spec fn range_of(range: tree_sitter::Range) -> RangeWrapper;

/// The node of the model that a `Node` stands for.
pub open spec fn facts(node: tree_sitter::Node) -> SyntaxNode {
    node_place(node).nodes[node_place(node).index]
}

/// A node's first child in the field `field`, if it has that field.
pub open spec fn field_child(node: SyntaxNode, field: Seq<char>) -> Option<int> {
    if node.fields.contains_key(field) {
        Some(node.fields[field])
    } else {
        None
    }
}

/// Whether `found` stands at `index` among the nodes of `node`, or is
/// nothing where there is no index.
pub open spec fn beside(
    found: Option<tree_sitter::Node>,
    node: tree_sitter::Node,
    index: Option<int>,
) -> bool {
    match found {
        Some(other) => index is Some && node_place(other) == (Place {
            nodes: node_place(node).nodes,
            index: index.unwrap(),
        }),
        None => index is None,
    }
}

/// `tree_sitter_rust::language`: the grammar of Rust.
#[verifier::external_body]
pub(crate) fn language_rust() -> (r: tree_sitter::Language)
    ensures
        grammar_id(r) == grammar_of(Extractor::Rust),
{
    tree_sitter_rust::language()
}

/// `tree_sitter_typescript::language_typescript`: the grammar of TypeScript.
#[verifier::external_body]
pub(crate) fn language_typescript() -> (r: tree_sitter::Language)
    ensures
        grammar_id(r) == grammar_of(Extractor::TypeScript),
{
    tree_sitter_typescript::language_typescript()
}

/// `tree_sitter_go::language`: the grammar of Go.
#[verifier::external_body]
pub(crate) fn language_go() -> (r: tree_sitter::Language)
    ensures
        grammar_id(r) == grammar_of(Extractor::Go),
{
    tree_sitter_go::language()
}

/// `tree_sitter_python::language`: the grammar of Python.
#[verifier::external_body]
pub(crate) fn language_python() -> (r: tree_sitter::Language)
    ensures
        grammar_id(r) == grammar_of(Extractor::Python),
{
    tree_sitter_python::language()
}

/// `tree_sitter_javascript::language`: the grammar of JavaScript.
#[verifier::external_body]
pub(crate) fn language_javascript() -> (r: tree_sitter::Language)
    ensures
        grammar_id(r) == grammar_of(Extractor::JavaScript),
{
    tree_sitter_javascript::language()
}

/// `tree_sitter_java::language`: the grammar of Java.
#[verifier::external_body]
pub(crate) fn language_java() -> (r: tree_sitter::Language)
    ensures
        grammar_id(r) == grammar_of(Extractor::Java),
{
    tree_sitter_java::language()
}

/// `tree_sitter_kotlin::language`: the grammar of Kotlin.
#[verifier::external_body]
pub(crate) fn language_kotlin() -> (r: tree_sitter::Language)
    ensures
        grammar_id(r) == grammar_of(Extractor::Kotlin),
{
    tree_sitter_kotlin::language()
}

/// `tree_sitter_swift::language`: the grammar of Swift.
#[verifier::external_body]
pub(crate) fn language_swift() -> (r: tree_sitter::Language)
    ensures
        grammar_id(r) == grammar_of(Extractor::Swift),
{
    tree_sitter_swift::language()
}

/// `tree_sitter_c_sharp::language`: the grammar of C#.
#[verifier::external_body]
pub(crate) fn language_c_sharp() -> (r: tree_sitter::Language)
    ensures
        grammar_id(r) == grammar_of(Extractor::CSharp),
{
    tree_sitter_c_sharp::language()
}

/// `tree_sitter_c::language`: the grammar of C.
#[verifier::external_body]
pub(crate) fn language_c() -> (r: tree_sitter::Language)
    ensures
        grammar_id(r) == grammar_of(Extractor::C),
{
    tree_sitter_c::language()
}

/// `tree_sitter_cpp::language`: the grammar of C++.
#[verifier::external_body]
pub(crate) fn language_cpp() -> (r: tree_sitter::Language)
    ensures
        grammar_id(r) == grammar_of(Extractor::Cpp),
{
    tree_sitter_cpp::language()
}

/// `Parser::new`: a parser without a language.
#[verifier::external_body]
pub(crate) fn parser_new() -> (r: tree_sitter::Parser)
    ensures
        parser_is_new(r),
{
    tree_sitter::Parser::new()
}

/// `Parser::set_language`, on a parser as it was made: gives the parser its
/// grammar, or fails where the grammar was generated for another version of
/// the parser; that alone decides.
#[verifier::external_body]
pub(crate) fn parser_set_language(
    parser: &mut tree_sitter::Parser,
    language: &tree_sitter::Language,
) -> (r: Result<(), tree_sitter::LanguageError>)
    requires
        parser_is_new(*old(parser)),
    ensures
        r is Ok <==> grammar_fits(grammar_id(*language)),
        r is Ok ==> parser_grammar(*final(parser)) == Some(grammar_id(*language)),
{
    parser.set_language(language)
}

/// `Parser::parse`, without an earlier tree, on a parser that has its
/// grammar and no other setting: the syntax tree that the grammar gives for
/// `source`.
#[verifier::external_body]
pub(crate) fn parser_parse(parser: &mut tree_sitter::Parser, source: &str) -> (r: Option<
    tree_sitter::Tree,
>)
    requires
        parser_grammar(*old(parser)) is Some,
    ensures
        r is Some <==> syntax_of(parser_grammar(*old(parser)).unwrap(), source@) is Some,
        r is Some ==> tree_view(r.unwrap()) == (SyntaxTree {
            grammar: parser_grammar(*old(parser)).unwrap(),
            source: source@,
            nodes: syntax_of(parser_grammar(*old(parser)).unwrap(), source@).unwrap(),
        }),
{
    parser.parse(source, None)
}

/// `Query::new`: the compiled form of a query text, or the error of a text
/// that is no query of the grammar.
#[verifier::external_body]
pub(crate) fn query_new(language: &tree_sitter::Language, source: &str) -> (r: Result<
    tree_sitter::Query,
    tree_sitter::QueryError,
>)
    ensures
        r is Ok <==> is_query(grammar_id(*language), source@),
        r is Ok ==> query_view(r.unwrap()) == (grammar_id(*language), source@),
{
    tree_sitter::Query::new(language, source)
}

/// `QueryCursor::new`: a cursor to run queries with.
#[verifier::external_body]
pub(crate) fn cursor_new() -> (r: tree_sitter::QueryCursor)
    ensures
        cursor_is_fresh(r),
{
    tree_sitter::QueryCursor::new()
}

/// `QueryCursor::matches` from the root of `tree`: the matches of `query`
/// in the tree, each handed out as the nodes of its captures. The query may
/// read the text of a node, so `source` has to be the text of the tree, and
/// the query one of the tree's grammar.
#[verifier::external_body]
pub(crate) fn cursor_matches<'t>(
    cursor: &mut tree_sitter::QueryCursor,
    query: &tree_sitter::Query,
    tree: &'t tree_sitter::Tree,
    source: &str,
) -> (r: Vec<Vec<tree_sitter::Node<'t>>>)
    requires
        cursor_is_fresh(*old(cursor)),
        tree_view(*tree).grammar == query_view(*query).0,
        tree_view(*tree).source == source@,
    ensures
        r@.len() == matches_of(query_view(*query).0, query_view(*query).1, source@).len(),
        forall|i: int|
            0 <= i < r@.len() ==> (#[trigger] r@[i])@.len() == matches_of(
                query_view(*query).0,
                query_view(*query).1,
                source@,
            )[i].len(),
        forall|i: int, j: int|
            0 <= i < r@.len() && 0 <= j < r@[i]@.len() ==> node_place(#[trigger] r@[i]@[j]) == (Place {
                nodes: tree_view(*tree).nodes,
                index: matches_of(query_view(*query).0, query_view(*query).1, source@)[i][j],
            }),
{
    cursor.matches(query, tree.root_node(), source.as_bytes()).map(
        |m| m.captures.iter().map(|c| c.node).collect(),
    ).collect()
}

/// `Node::kind`: the name of the node's kind in the grammar.
#[verifier::external_body]
pub(crate) fn node_kind(node: &tree_sitter::Node) -> (r: &'static str)
    ensures
        r@ == facts(*node).kind,
{
    node.kind()
}

/// `Node::parent`: the node directly above, if any; a node of the same
/// tree.
#[verifier::external_body]
pub(crate) fn node_parent<'t>(node: &tree_sitter::Node<'t>) -> (r: Option<tree_sitter::Node<'t>>)
    ensures
        beside(r, *node, facts(*node).parent),
        r is Some ==> node_owner(r.unwrap()) == node_owner(*node),
{
    node.parent()
}

/// `Node::child_by_field_name`: the node's first child in the named field,
/// if it has that field; a node of the same tree.
#[verifier::external_body]
pub(crate) fn node_child_by_field_name<'t>(node: &tree_sitter::Node<'t>, field: &str) -> (r: Option<
    tree_sitter::Node<'t>,
>)
    ensures
        beside(r, *node, field_child(facts(*node), field@)),
        r is Some ==> node_owner(r.unwrap()) == node_owner(*node),
{
    node.child_by_field_name(field)
}

/// `Node::child_count`: the number of the node's children.
#[verifier::external_body]
pub(crate) fn node_child_count(node: &tree_sitter::Node) -> (r: usize)
    ensures
        r == facts(*node).children.len(),
{
    node.child_count()
}

/// `Node::child`, at a position below the number of children: the node's
/// child there; a node of the same tree.
#[verifier::external_body]
pub(crate) fn node_child<'t>(node: &tree_sitter::Node<'t>, i: usize) -> (r: Option<
    tree_sitter::Node<'t>,
>)
    requires
        i < facts(*node).children.len(),
    ensures
        beside(r, *node, facts(*node).children[i as int]),
        r is Some ==> node_owner(r.unwrap()) == node_owner(*node),
{
    node.child(i)
}

/// `Node::range`: the node's extent in the source.
#[verifier::external_body]
pub(crate) fn node_range(node: &tree_sitter::Node) -> (r: tree_sitter::Range)
    ensures
        range_of(r) == facts(*node).range,
{
    node.range()
}

/// `Node`'s `==`, on two nodes of one tree: whether they are the same node.
/// Nodes of two trees are never compared.
#[verifier::external_body]
pub(crate) fn node_is(a: &tree_sitter::Node, b: &tree_sitter::Node) -> (r: bool)
    requires
        node_owner(*a) == node_owner(*b),
    ensures
        r == (node_place(*a).index == node_place(*b).index),
{
    a == b
}

} // verus!

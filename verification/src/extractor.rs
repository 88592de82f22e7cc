//! Symbol extraction: from a file's path and text to the definitions,
//! references and imports found in it.

use crate::graph::{lemma_survivors, prune_nested, pruned};
use crate::model::of_kind;
use crate::rule::{filter_level, get_rule, rule_of, Rule, RuleModel};
use crate::scope::{
    contains_word, fqn, lemma_fqn_ends, qualified_name, text_of, ScopeFacts, ScopeModel,
};
use crate::symbol::{RangeWrapper, Symbol, SymbolKind, SymbolModel};
use crate::syntax::{
    beside, cursor_matches, cursor_new, facts, field_child, grammar_fits, grammar_id, grammar_of,
    is_query, language_c, language_c_sharp, language_cpp, language_go, language_java,
    language_javascript, language_kotlin, language_python, language_rust, language_swift,
    language_typescript, matches_of, node_child, node_child_by_field_name, node_child_count,
    node_is, node_kind, node_owner, node_parent, node_place, node_range, parser_new, parser_parse,
    parser_set_language, query_new, syntax_of, tree_view, Place, SyntaxNode,
};
use crate::text::{
    ends_with, matches_pattern, regex_match, slice_text, strip_quotes, text_between, unquoted,
};
use vstd::prelude::*;
use vstd::string::*;

verus! {

/// The languages that symbols can be extracted from.
#[derive(Debug, Clone, Copy, PartialEq, Eq, Hash, Structural)]
pub enum Extractor {
    Rust,
    TypeScript,
    Go,
    Python,
    JavaScript,
    Java,
    Kotlin,
    Swift,
    CSharp,
    C,
    Cpp,
}

/// Why a file gave no symbols.
#[derive(Debug, Clone, Copy, PartialEq, Eq, Structural)]
pub enum ExtractError {
    /// The grammar does not fit the parser.
    Language,
    /// The parser gave no tree.
    Parse,
    /// A query of the language's rule is no query of its grammar.
    Query,
}

/// A node that a query captured, as the extractor reads it: its text, its
/// extent, and the nodes around it from the nearest outwards.
pub struct Capture {
    pub text: String,
    pub range: RangeWrapper,
    pub scopes: Vec<ScopeFacts>,
}

/// The mathematical value of a [`Capture`].
pub struct CaptureModel {
    pub text: Seq<char>,
    pub range: RangeWrapper,
    pub scopes: Seq<ScopeModel>,
}

impl View for Capture {
    type V = CaptureModel;

    open spec fn view(&self) -> CaptureModel {
        CaptureModel { text: self.text@, range: self.range, scopes: self.scopes.deep_view() }
    }
}

impl DeepView for Capture {
    type V = CaptureModel;

    open spec fn deep_view(&self) -> CaptureModel {
        self@
    }
}

/// What the four queries of a rule captured in one file.
pub struct Captures {
    pub defs: Vec<Capture>,
    pub refs: Vec<Capture>,
    pub deps: Vec<Capture>,
    pub namespaces: Vec<RangeWrapper>,
}

/// The mathematical value of a [`Captures`].
pub struct CapturesModel {
    pub defs: Seq<CaptureModel>,
    pub refs: Seq<CaptureModel>,
    pub deps: Seq<CaptureModel>,
    pub namespaces: Seq<RangeWrapper>,
}

impl View for Captures {
    type V = CapturesModel;

    open spec fn view(&self) -> CapturesModel {
        CapturesModel {
            defs: self.defs.deep_view(),
            refs: self.refs.deep_view(),
            deps: self.deps.deep_view(),
            namespaces: self.namespaces@,
        }
    }
}

/// Whether a capture was read from `source`: its text is the text of the
/// source within its extent.
pub open spec fn read_from(capture: CaptureModel, source: Seq<char>) -> bool {
    text_between(source, capture.range.start_byte as int, capture.range.end_byte as int) == Some(
        capture.text,
    )
}

/// Whether each of `captures` was read from `source`.
pub open spec fn all_read_from(captures: Seq<CaptureModel>, source: Seq<char>) -> bool {
    forall|i: int| 0 <= i < captures.len() ==> read_from(#[trigger] captures[i], source)
}

/// Whether the definitions, references and imports among `captures` were
/// read from `source`.
pub open spec fn captured_from(captures: CapturesModel, source: Seq<char>) -> bool {
    &&& all_read_from(captures.defs, source)
    &&& all_read_from(captures.refs, source)
    &&& all_read_from(captures.deps, source)
}

/// Whether a symbol is named after the text of `source` within its extent:
/// an import by that text without quotes, any other symbol by a name that
/// ends with that text.
pub open spec fn named_from(s: SymbolModel, source: Seq<char>) -> bool {
    match text_between(source, s.range.start_byte as int, s.range.end_byte as int) {
        Some(text) => if s.kind == SymbolKind::IMPORT {
            s.name == unquoted(text)
        } else {
            ends_with(s.name, text)
        },
        None => false,
    }
}

/// Whether a rule rejects a captured name: the name is blacklisted or the
/// rule's exclusion pattern matches it.
pub open spec fn rejected(rule: RuleModel, text: Seq<char>) -> bool {
    rule.blacklist.contains(text) || (rule.exclude_regex is Some && regex_match(
        rule.exclude_regex.unwrap(),
        text,
    ))
}

/// The symbol that a capture stands for. An import is named by its text
/// without quotes, any other symbol by its fully-qualified name.
pub open spec fn symbol_of(
    file: Seq<char>,
    capture: CaptureModel,
    kind: SymbolKind,
    receivers: bool,
) -> SymbolModel {
    SymbolModel {
        file,
        name: if kind == SymbolKind::IMPORT {
            unquoted(capture.text)
        } else {
            fqn(capture.scopes, capture.text, receivers)
        },
        range: capture.range,
        kind,
    }
}

/// Whether a definition among `defs` has the name and the start of `s`: then
/// `s` is that definition's own node.
pub open spec fn taken(defs: Seq<SymbolModel>, s: SymbolModel) -> bool {
    exists|i: int|
        0 <= i < defs.len() && (#[trigger] defs[i]).range.start_byte == s.range.start_byte
            && defs[i].name == s.name
}

/// The symbols of the kind `kind` that `captures` give: one for each capture
/// that the rule does not reject and, among references, that is not the
/// node of a definition in `defs`.
pub open spec fn emitted(
    file: Seq<char>,
    rule: RuleModel,
    receivers: bool,
    captures: Seq<CaptureModel>,
    kind: SymbolKind,
    defs: Seq<SymbolModel>,
) -> Seq<SymbolModel>
    decreases captures.len(),
{
    if captures.len() == 0 {
        Seq::empty()
    } else {
        let rest = emitted(file, rule, receivers, captures.drop_last(), kind, defs);
        let s = symbol_of(file, captures.last(), kind, receivers);
        if rejected(rule, captures.last().text) || (kind == SymbolKind::REF && taken(defs, s)) {
            rest
        } else {
            rest.push(s)
        }
    }
}

/// The scopes of a file as symbols without a name.
pub open spec fn scope_symbols(file: Seq<char>, namespaces: Seq<RangeWrapper>) -> Seq<
    SymbolModel,
> {
    Seq::new(
        namespaces.len(),
        |i: int|
            SymbolModel {
                file,
                name: Seq::empty(),
                range: namespaces[i],
                kind: SymbolKind::NAMESPACE,
            },
    )
}

/// All symbols that the captures of one file give: definitions, then
/// references, then imports, then scopes.
pub open spec fn captured_symbols(
    file: Seq<char>,
    rule: RuleModel,
    receivers: bool,
    captures: CapturesModel,
) -> Seq<SymbolModel> {
    let defs = emitted(file, rule, receivers, captures.defs, SymbolKind::DEF, Seq::empty());
    defs + emitted(file, rule, receivers, captures.refs, SymbolKind::REF, defs) + emitted(
        file,
        rule,
        receivers,
        captures.deps,
        SymbolKind::IMPORT,
        Seq::empty(),
    ) + scope_symbols(file, captures.namespaces)
}

/// The symbols of a file, given what the queries captured in it: what the
/// captures give, pruned at the rule's nesting level.
pub open spec fn symbols_from(file: Seq<char>, rule: RuleModel, receivers: bool, captures: CapturesModel) -> Seq<
    SymbolModel,
> {
    pruned(captured_symbols(file, rule, receivers, captures), rule.namespace_filter_level)
}

/// Every emitted symbol is of the given file and kind.
pub proof fn lemma_emitted(
    file: Seq<char>,
    rule: RuleModel,
    receivers: bool,
    captures: Seq<CaptureModel>,
    kind: SymbolKind,
    defs: Seq<SymbolModel>,
)
    ensures
        forall|i: int|
            0 <= i < emitted(file, rule, receivers, captures, kind, defs).len() ==> (
            #[trigger] emitted(file, rule, receivers, captures, kind, defs)[i]).file == file
                && emitted(file, rule, receivers, captures, kind, defs)[i].kind == kind,
    decreases captures.len(),
{
    if captures.len() > 0 {
        lemma_emitted(file, rule, receivers, captures.drop_last(), kind, defs);
    }
}

/// Every symbol of a file is of that file and is a definition, a reference
/// or an import.
pub proof fn lemma_symbols_from(
    file: Seq<char>,
    rule: RuleModel,
    receivers: bool,
    captures: CapturesModel,
)
    ensures
        forall|i: int|
            0 <= i < symbols_from(file, rule, receivers, captures).len() ==> (
            #[trigger] symbols_from(file, rule, receivers, captures)[i]).file == file
                && symbols_from(file, rule, receivers, captures)[i].kind
                != SymbolKind::NAMESPACE,
{
    let all = captured_symbols(file, rule, receivers, captures);
    let defs = emitted(file, rule, receivers, captures.defs, SymbolKind::DEF, Seq::empty());
    lemma_emitted(file, rule, receivers, captures.defs, SymbolKind::DEF, Seq::empty());
    lemma_emitted(file, rule, receivers, captures.refs, SymbolKind::REF, defs);
    lemma_emitted(file, rule, receivers, captures.deps, SymbolKind::IMPORT, Seq::empty());
    assert forall|k: int| 0 <= k < all.len() implies (#[trigger] all[k]).file == file by {}
    lemma_survivors(all, of_kind(all, SymbolKind::NAMESPACE), rule.namespace_filter_level);
    let kept = symbols_from(file, rule, receivers, captures);
    assert forall|i: int| 0 <= i < kept.len() implies (#[trigger] kept[i]).file == file
        && kept[i].kind != SymbolKind::NAMESPACE by {
        assert(all.contains(kept[i]));
    }
}

/// Every symbol emitted for captures that were read from a source is named
/// after that source.
pub proof fn lemma_emitted_named(
    file: Seq<char>,
    rule: RuleModel,
    receivers: bool,
    captures: Seq<CaptureModel>,
    kind: SymbolKind,
    defs: Seq<SymbolModel>,
    source: Seq<char>,
)
    requires
        all_read_from(captures, source),
    ensures
        forall|i: int|
            0 <= i < emitted(file, rule, receivers, captures, kind, defs).len() ==> named_from(
                #[trigger] emitted(file, rule, receivers, captures, kind, defs)[i],
                source,
            ),
    decreases captures.len(),
{
    if captures.len() > 0 {
        assert(all_read_from(captures.drop_last(), source)) by {
            assert forall|i: int| 0 <= i < captures.drop_last().len() implies read_from(
                #[trigger] captures.drop_last()[i],
                source,
            ) by {
                assert(captures.drop_last()[i] == captures[i]);
            }
        }
        lemma_emitted_named(file, rule, receivers, captures.drop_last(), kind, defs, source);
        let last = captures.last();
        assert(read_from(last, source));
        lemma_fqn_ends(last.scopes, last.text, receivers);
        let rest = emitted(file, rule, receivers, captures.drop_last(), kind, defs);
        let all = emitted(file, rule, receivers, captures, kind, defs);
        assert(named_from(symbol_of(file, last, kind, receivers), source));
        assert forall|i: int| 0 <= i < all.len() implies named_from(#[trigger] all[i], source) by {
            if i < rest.len() {
                assert(all[i] == rest[i]);
            }
        }
    }
}

/// Every symbol of a file whose captures were read from a source is named
/// after that source.
pub proof fn lemma_symbols_named(
    file: Seq<char>,
    rule: RuleModel,
    receivers: bool,
    captures: CapturesModel,
    source: Seq<char>,
)
    requires
        captured_from(captures, source),
    ensures
        forall|i: int|
            0 <= i < symbols_from(file, rule, receivers, captures).len() ==> named_from(
                #[trigger] symbols_from(file, rule, receivers, captures)[i],
                source,
            ),
{
    let all = captured_symbols(file, rule, receivers, captures);
    let defs = emitted(file, rule, receivers, captures.defs, SymbolKind::DEF, Seq::empty());
    lemma_emitted_named(file, rule, receivers, captures.defs, SymbolKind::DEF, Seq::empty(), source);
    lemma_emitted_named(file, rule, receivers, captures.refs, SymbolKind::REF, defs, source);
    lemma_emitted_named(
        file,
        rule,
        receivers,
        captures.deps,
        SymbolKind::IMPORT,
        Seq::empty(),
        source,
    );
    assert forall|k: int| 0 <= k < all.len() implies (#[trigger] all[k]).kind
        == SymbolKind::NAMESPACE || named_from(all[k], source) by {}
    lemma_survivors(all, of_kind(all, SymbolKind::NAMESPACE), rule.namespace_filter_level);
    lemma_symbols_from(file, rule, receivers, captures);
    let kept = symbols_from(file, rule, receivers, captures);
    assert forall|i: int| 0 <= i < kept.len() implies named_from(#[trigger] kept[i], source) by {
        assert(all.contains(kept[i]));
    }
}

/// Whether the rule rejects a captured name.
pub fn is_rejected(rule: &Rule, text: &String) -> (r: bool)
    ensures
        r == rejected(rule@, text@),
{
    let mut i: usize = 0;
    while i < rule.blacklist.len()
        invariant
            i <= rule.blacklist.len(),
            forall|k: int| 0 <= k < i ==> rule@.blacklist[k] != text@,
        decreases rule.blacklist.len() - i,
    {
        if String::from_str(rule.blacklist[i]) == *text {
            assert(rule@.blacklist[i as int] == text@);
            return true;
        }
        i += 1;
    }
    match rule.exclude_regex {
        Some(pattern) => matches_pattern(pattern, text.as_str()),
        None => false,
    }
}

/// Whether a definition among `defs` has the name and the start of a
/// symbol.
fn is_taken(defs: &Vec<Symbol>, name: &String, start_byte: usize) -> (r: bool)
    ensures
        r == exists|i: int|
            0 <= i < defs.len() && (#[trigger] defs.deep_view()[i]).range.start_byte == start_byte
                && defs.deep_view()[i].name == name@,
{
    let mut i: usize = 0;
    while i < defs.len()
        invariant
            i <= defs.len(),
            forall|k: int|
                0 <= k < i ==> !((#[trigger] defs.deep_view()[k]).range.start_byte == start_byte
                    && defs.deep_view()[k].name == name@),
        decreases defs.len() - i,
    {
        if defs[i].range.start_byte == start_byte && defs[i].name == *name {
            assert(defs.deep_view()[i as int] == defs[i as int]@);
            return true;
        }
        assert(defs.deep_view()[i as int] == defs[i as int]@);
        i += 1;
    }
    false
}

/// The symbols of the kind `kind` that `captures` give.
pub fn emit(
    file: &String,
    rule: &Rule,
    receivers: bool,
    captures: &Vec<Capture>,
    kind: SymbolKind,
    defs: &Vec<Symbol>,
) -> (r: Vec<Symbol>)
    ensures
        r.deep_view() == emitted(file@, rule@, receivers, captures.deep_view(), kind, defs.deep_view()),
{
    let mut out: Vec<Symbol> = Vec::new();
    let mut i: usize = 0;
    while i < captures.len()
        invariant
            i <= captures.len(),
            out.deep_view() == emitted(
                file@,
                rule@,
                receivers,
                captures.deep_view().take(i as int),
                kind,
                defs.deep_view(),
            ),
        decreases captures.len() - i,
    {
        proof {
            assert(captures.deep_view().take(i + 1).drop_last() =~= captures.deep_view().take(
                i as int,
            ));
            assert(captures.deep_view().take(i + 1).last() == captures[i as int]@);
        }
        let ghost before = out.deep_view();
        let capture = &captures[i];
        if !is_rejected(rule, &capture.text) {
            let name = match kind {
                SymbolKind::IMPORT => strip_quotes(capture.text.as_str()),
                _ => qualified_name(&capture.scopes, capture.text.as_str(), receivers),
            };
            let is_own_node = match kind {
                SymbolKind::REF => is_taken(defs, &name, capture.range.start_byte),
                _ => false,
            };
            if !is_own_node {
                let symbol = Symbol { file: file.clone(), name, range: capture.range, kind };
                assert(symbol@ == symbol_of(file@, capture@, kind, receivers));
                out.push(symbol);
                assert(out.deep_view() =~= before.push(
                    symbol_of(file@, capture@, kind, receivers),
                ));
            }
        }
        i += 1;
    }
    assert(captures.deep_view().take(captures.len() as int) =~= captures.deep_view());
    out
}

fn append_symbols(out: &mut Vec<Symbol>, more: Vec<Symbol>)
    ensures
        final(out).deep_view() == old(out).deep_view() + more.deep_view(),
{
    let mut more = more;
    let ghost added = more.deep_view();
    out.append(&mut more);
    assert(out.deep_view() =~= old(out).deep_view() + added);
}

/// The symbols of a file, given what the queries of `rule` captured in it.
pub fn symbols_of_captures(file: &String, rule: &Rule, receivers: bool, captures: &Captures) -> (r:
    Vec<Symbol>)
    ensures
        r.deep_view() == symbols_from(file@, rule@, receivers, captures@),
        forall|i: int|
            0 <= i < r.len() ==> (#[trigger] r[i])@.file == file@ && r[i]@.kind
                != SymbolKind::NAMESPACE,
{
    let no_defs: Vec<Symbol> = Vec::new();
    assert(no_defs.deep_view() =~= Seq::<SymbolModel>::empty());
    let mut all = emit(file, rule, receivers, &captures.defs, SymbolKind::DEF, &no_defs);
    let refs = emit(file, rule, receivers, &captures.refs, SymbolKind::REF, &all);
    let deps = emit(file, rule, receivers, &captures.deps, SymbolKind::IMPORT, &no_defs);
    append_symbols(&mut all, refs);
    append_symbols(&mut all, deps);
    let ghost named = all.deep_view();
    let mut i: usize = 0;
    while i < captures.namespaces.len()
        invariant
            i <= captures.namespaces.len(),
            all.deep_view() == named + scope_symbols(file@, captures.namespaces@.take(i as int)),
        decreases captures.namespaces.len() - i,
    {
        let ghost before = all.deep_view();
        all.push(
            Symbol {
                file: file.clone(),
                name: String::new(),
                range: captures.namespaces[i],
                kind: SymbolKind::NAMESPACE,
            },
        );
        proof {
            let scope = SymbolModel {
                file: file@,
                name: Seq::empty(),
                range: captures.namespaces@[i as int],
                kind: SymbolKind::NAMESPACE,
            };
            assert(all.deep_view() =~= before.push(scope));
            assert(scope_symbols(file@, captures.namespaces@.take(i + 1)) =~= scope_symbols(
                file@,
                captures.namespaces@.take(i as int),
            ).push(scope));
        }
        i += 1;
    }
    assert(captures.namespaces@.take(captures.namespaces.len() as int) =~= captures.namespaces@);
    let kept = prune_nested(&all, rule.namespace_filter_level);
    proof {
        lemma_symbols_from(file@, rule@, receivers, captures@);
        assert forall|i: int| 0 <= i < kept.len() implies (#[trigger] kept[i])@.file == file@
            && kept[i]@.kind != SymbolKind::NAMESPACE by {
            assert(kept[i]@ == kept.deep_view()[i]);
        }
    }
    kept
}

/// The text of `source` within the extent of the node at `node`.
pub open spec fn text_at(nodes: Seq<SyntaxNode>, node: int, source: Seq<char>) -> Option<Seq<char>> {
    text_between(
        source,
        nodes[node].range.start_byte as int,
        nodes[node].range.end_byte as int,
    )
}

/// The fields that may hold what qualifies a node's name.
pub open spec fn qualifier_fields() -> Seq<&'static str> {
    seq!["receiver", "object", "operand", "trait", "namespace", "scope"]
}

/// The fields that may hold a node's name.
pub open spec fn naming_fields() -> Seq<&'static str> {
    seq!["name", "identifier", "declarator"]
}

/// The first child of `node` that one of `fields` holds, the fields taken in
/// their order.
pub open spec fn first_in_fields(node: SyntaxNode, fields: Seq<&'static str>) -> Option<int>
    decreases fields.len(),
{
    if fields.len() == 0 {
        None
    } else if field_child(node, fields[0]@) is Some {
        field_child(node, fields[0]@)
    } else {
        first_in_fields(node, fields.skip(1))
    }
}

/// The first child of `node` that one of `fields` holds and that is not the
/// capture.
pub open spec fn qualifier_node(node: SyntaxNode, capture: int, fields: Seq<&'static str>) -> Option<
    int,
>
    decreases fields.len(),
{
    if fields.len() == 0 {
        None
    } else if field_child(node, fields[0]@) is Some && field_child(node, fields[0]@).unwrap()
        != capture {
        field_child(node, fields[0]@)
    } else {
        qualifier_node(node, capture, fields.skip(1))
    }
}

/// What qualifies the name of the node at `node`: the text of the first
/// qualifying field whose value is not the capture.
pub open spec fn qualifier_of(
    nodes: Seq<SyntaxNode>,
    node: int,
    capture: int,
    source: Seq<char>,
) -> Option<Seq<char>> {
    match qualifier_node(nodes[node], capture, qualifier_fields()) {
        Some(child) => text_at(nodes, child, source),
        None => None,
    }
}

/// The first child of the node at `node`, from the position `from` on, that
/// is of an identifier kind and is not the capture.
pub open spec fn identifier_node(nodes: Seq<SyntaxNode>, node: int, capture: int, from: int) -> Option<
    int,
>
    decreases nodes[node].children.len() - from,
{
    if from < 0 || from >= nodes[node].children.len() {
        None
    } else if nodes[node].children[from] is Some && contains_word(
        nodes[nodes[node].children[from].unwrap()].kind,
        "identifier"@,
    ) && nodes[node].children[from].unwrap() != capture {
        nodes[node].children[from]
    } else {
        identifier_node(nodes, node, capture, from + 1)
    }
}

/// The text of the first child of the node at `node` that is of an
/// identifier kind and is not the capture.
pub open spec fn identifier_of(
    nodes: Seq<SyntaxNode>,
    node: int,
    capture: int,
    source: Seq<char>,
) -> Option<Seq<char>> {
    match identifier_node(nodes, node, capture, 0) {
        Some(child) => text_at(nodes, child, source),
        None => None,
    }
}

/// What the naming rules read of the node at `node`, a node around the
/// capture: its kind, its qualifier, and its name from the first naming
/// field that it has or, where it has none, from its first identifier.
pub open spec fn scope_of(nodes: Seq<SyntaxNode>, node: int, capture: int, source: Seq<char>) -> ScopeModel {
    match first_in_fields(nodes[node], naming_fields()) {
        Some(child) => ScopeModel {
            kind: nodes[node].kind,
            qualifier: qualifier_of(nodes, node, capture, source),
            name: text_at(nodes, child, source),
            names_capture: child == capture,
            identifier: None,
        },
        None => ScopeModel {
            kind: nodes[node].kind,
            qualifier: qualifier_of(nodes, node, capture, source),
            name: None,
            names_capture: false,
            identifier: identifier_of(nodes, node, capture, source),
        },
    }
}

/// What the naming rules read of the node at `start` and of the nodes above
/// it, up to `fuel` of them, from the nearest outwards.
pub open spec fn scopes_from(
    nodes: Seq<SyntaxNode>,
    start: Option<int>,
    capture: int,
    source: Seq<char>,
    fuel: nat,
) -> Seq<ScopeModel>
    decreases fuel,
{
    if fuel == 0 || start is None {
        Seq::empty()
    } else {
        seq![scope_of(nodes, start.unwrap(), capture, source)] + scopes_from(
            nodes,
            nodes[start.unwrap()].parent,
            capture,
            source,
            (fuel - 1) as nat,
        )
    }
}

/// The nodes around the capture as the naming rules read them, from the
/// nearest outwards. A node has fewer nodes around it than the machine can
/// count.
pub open spec fn scopes_of(nodes: Seq<SyntaxNode>, capture: int, source: Seq<char>) -> Seq<
    ScopeModel,
> {
    scopes_from(nodes, nodes[capture].parent, capture, source, usize::MAX as nat)
}

/// A captured node as the extractor reads it; nothing where its extent
/// holds no text.
pub open spec fn capture_at(place: Place, source: Seq<char>) -> Option<CaptureModel> {
    match text_at(place.nodes, place.index, source) {
        Some(text) => Some(
            CaptureModel {
                text,
                range: place.nodes[place.index].range,
                scopes: scopes_of(place.nodes, place.index, source),
            },
        ),
        None => None,
    }
}

/// The captured nodes as the extractor reads them, in their order; a node
/// whose text cannot be read is left out.
pub open spec fn captures_at(places: Seq<Place>, source: Seq<char>) -> Seq<CaptureModel>
    decreases places.len(),
{
    if places.len() == 0 {
        Seq::empty()
    } else {
        let rest = captures_at(places.drop_last(), source);
        match capture_at(places.last(), source) {
            Some(capture) => rest.push(capture),
            None => rest,
        }
    }
}

/// The extents of the nodes.
pub open spec fn extents_at(places: Seq<Place>) -> Seq<RangeWrapper> {
    Seq::new(places.len(), |k: int| places[k].nodes[places[k].index].range)
}

/// The places in `nodes` that the indices name.
pub open spec fn places(nodes: Seq<SyntaxNode>, indices: Seq<int>) -> Seq<Place> {
    Seq::new(indices.len(), |k: int| Place { nodes, index: indices[k] })
}

/// Where the nodes stand.
pub open spec fn places_of(found: Seq<tree_sitter::Node>) -> Seq<Place> {
    Seq::new(found.len(), |k: int| node_place(found[k]))
}

/// The first capture of each match; a match without captures gives none.
pub open spec fn firsts<T>(matches: Seq<Seq<T>>) -> Seq<T>
    decreases matches.len(),
{
    if matches.len() == 0 {
        Seq::empty()
    } else if matches.last().len() > 0 {
        firsts(matches.drop_last()).push(matches.last()[0])
    } else {
        firsts(matches.drop_last())
    }
}

/// The nodes that a query of a rule captures in the tree of `source`: none
/// for an empty query, and nothing for a text that is no query of the
/// grammar.
pub open spec fn query_nodes(grammar: int, text: Seq<char>, source: Seq<char>) -> Option<Seq<int>> {
    if text.len() == 0 {
        Some(Seq::empty())
    } else if is_query(grammar, text) {
        Some(firsts(matches_of(grammar, text, source)))
    } else {
        None
    }
}

/// What the queries of `rule` capture in the tree of `source`, whose nodes
/// are `nodes`: definitions, references, imports and, where the rule prunes
/// nested definitions, scopes.
pub open spec fn captured_in(
    grammar: int,
    rule: RuleModel,
    nodes: Seq<SyntaxNode>,
    source: Seq<char>,
) -> Result<CapturesModel, ExtractError> {
    let defs = query_nodes(grammar, rule.export_grammar, source);
    let refs = query_nodes(grammar, rule.import_grammar, source);
    let deps = query_nodes(grammar, rule.dep_grammar, source);
    let scopes = if rule.namespace_filter_level > 0 {
        query_nodes(grammar, rule.namespace_grammar, source)
    } else {
        Some(Seq::empty())
    };
    if defs is None || refs is None || deps is None || scopes is None {
        Err(ExtractError::Query)
    } else {
        Ok(
            CapturesModel {
                defs: captures_at(places(nodes, defs.unwrap()), source),
                refs: captures_at(places(nodes, refs.unwrap()), source),
                deps: captures_at(places(nodes, deps.unwrap()), source),
                namespaces: extents_at(places(nodes, scopes.unwrap())),
            },
        )
    }
}

/// What the queries of `rule` capture in `source`, parsed with the grammar
/// `grammar`, or why they capture nothing.
pub open spec fn captured_by(grammar: int, rule: RuleModel, source: Seq<char>) -> Result<
    CapturesModel,
    ExtractError,
> {
    if !grammar_fits(grammar) {
        Err(ExtractError::Language)
    } else {
        match syntax_of(grammar, source) {
            Some(nodes) => captured_in(grammar, rule, nodes, source),
            None => Err(ExtractError::Parse),
        }
    }
}

/// The symbols that `rule` finds in the file `file` with the text `source`,
/// read as a text of `language`, or why there are none.
pub open spec fn symbols_by(
    language: Extractor,
    rule: RuleModel,
    file: Seq<char>,
    source: Seq<char>,
) -> Result<Seq<SymbolModel>, ExtractError> {
    match captured_by(grammar_of(language), rule, source) {
        Ok(captures) => Ok(symbols_from(file, rule, language.writes_receivers(), captures)),
        Err(e) => Err(e),
    }
}

/// The symbols of the file `file` with the text `source` in `language`; none
/// for a text that cannot be read.
pub open spec fn symbols_in(language: Extractor, file: Seq<char>, source: Seq<char>) -> Seq<
    SymbolModel,
> {
    match symbols_by(language, rule_of(language), file, source) {
        Ok(symbols) => symbols,
        Err(_) => Seq::empty(),
    }
}

/// Every symbol of a file is of that file and is a definition, a reference
/// or an import.
pub proof fn lemma_symbols_in(language: Extractor, file: Seq<char>, source: Seq<char>)
    ensures
        forall|i: int|
            0 <= i < symbols_in(language, file, source).len() ==> (#[trigger] symbols_in(
                language,
                file,
                source,
            )[i]).file == file && symbols_in(language, file, source)[i].kind
                != SymbolKind::NAMESPACE,
{
    match captured_by(grammar_of(language), rule_of(language), source) {
        Ok(captures) => {
            lemma_symbols_from(file, rule_of(language), language.writes_receivers(), captures);
        },
        Err(_) => {},
    }
}

/// Every capture that is read of a node was read from the source.
pub proof fn lemma_captures_read(places: Seq<Place>, source: Seq<char>)
    ensures
        all_read_from(captures_at(places, source), source),
    decreases places.len(),
{
    if places.len() > 0 {
        lemma_captures_read(places.drop_last(), source);
        let rest = captures_at(places.drop_last(), source);
        let all = captures_at(places, source);
        assert forall|i: int| 0 <= i < all.len() implies read_from(#[trigger] all[i], source) by {
            if i < rest.len() {
                assert(all[i] == rest[i]);
            }
        }
    }
}

/// Every symbol of a file is named after the text of the file within the
/// symbol's extent: an import by that text without quotes, any other symbol
/// by a name that ends with that text.
pub proof fn lemma_named_in(language: Extractor, file: Seq<char>, source: Seq<char>)
    ensures
        forall|i: int|
            0 <= i < symbols_in(language, file, source).len() ==> named_from(
                #[trigger] symbols_in(language, file, source)[i],
                source,
            ),
{
    let grammar = grammar_of(language);
    let rule = rule_of(language);
    match captured_by(grammar, rule, source) {
        Ok(captures) => {
            let nodes = syntax_of(grammar, source).unwrap();
            lemma_captures_read(
                places(nodes, query_nodes(grammar, rule.export_grammar, source).unwrap()),
                source,
            );
            lemma_captures_read(
                places(nodes, query_nodes(grammar, rule.import_grammar, source).unwrap()),
                source,
            );
            lemma_captures_read(
                places(nodes, query_nodes(grammar, rule.dep_grammar, source).unwrap()),
                source,
            );
            lemma_symbols_named(file, rule, language.writes_receivers(), captures, source);
        },
        Err(_) => {},
    }
}

/// The mathematical value of what capturing gave.
pub open spec fn captures_value(r: Result<Captures, ExtractError>) -> Result<
    CapturesModel,
    ExtractError,
> {
    match r {
        Ok(captures) => Ok(captures@),
        Err(e) => Err(e),
    }
}

/// The mathematical value of what extraction gave.
pub open spec fn symbols_value(r: Result<Vec<Symbol>, ExtractError>) -> Result<
    Seq<SymbolModel>,
    ExtractError,
> {
    match r {
        Ok(symbols) => Ok(symbols.deep_view()),
        Err(e) => Err(e),
    }
}

/// The first child of `node` that one of the named fields holds.
fn first_field<'t>(node: &tree_sitter::Node<'t>, fields: &Vec<&'static str>) -> (r: Option<
    tree_sitter::Node<'t>,
>)
    ensures
        beside(r, *node, first_in_fields(facts(*node), fields@)),
        r is Some ==> node_owner(r.unwrap()) == node_owner(*node),
{
    let mut i: usize = 0;
    assert(fields@.skip(0) =~= fields@);
    while i < fields.len()
        invariant
            i <= fields.len(),
            first_in_fields(facts(*node), fields@) == first_in_fields(
                facts(*node),
                fields@.skip(i as int),
            ),
        decreases fields.len() - i,
    {
        proof {
            assert(fields@.skip(i as int)[0] == fields@[i as int]);
            assert(fields@.skip(i as int).skip(1) =~= fields@.skip(i + 1));
        }
        let child = node_child_by_field_name(node, fields[i]);
        if child.is_some() {
            return child;
        }
        i += 1;
    }
    None
}

/// The extent of `node`, and the text of `source` within it.
fn read_text(node: &tree_sitter::Node, source: &str) -> (r: (RangeWrapper, Option<String>))
    ensures
        r.0 == facts(*node).range,
        text_of(r.1) == text_at(node_place(*node).nodes, node_place(*node).index, source@),
{
    let range = RangeWrapper::from(node_range(node));
    let text = slice_text(source, range.start_byte, range.end_byte);
    (range, text)
}

/// The text of the first qualifying field of `node` whose value is not the
/// capture. Both are nodes of one tree.
fn read_qualifier(node: &tree_sitter::Node, capture: &tree_sitter::Node, source: &str) -> (r: Option<
    String,
>)
    requires
        node_owner(*node) == node_owner(*capture),
    ensures
        text_of(r) == qualifier_of(
            node_place(*node).nodes,
            node_place(*node).index,
            node_place(*capture).index,
            source@,
        ),
{
    let fields: Vec<&'static str> = vec![
        "receiver",
        "object",
        "operand",
        "trait",
        "namespace",
        "scope",
    ];
    assert(fields@ =~= qualifier_fields());
    assert(fields@.skip(0) =~= fields@);
    let mut i: usize = 0;
    while i < fields.len()
        invariant
            i <= fields.len(),
            fields@ == qualifier_fields(),
            node_owner(*node) == node_owner(*capture),
            qualifier_node(facts(*node), node_place(*capture).index, fields@) == qualifier_node(
                facts(*node),
                node_place(*capture).index,
                fields@.skip(i as int),
            ),
        decreases fields.len() - i,
    {
        proof {
            assert(fields@.skip(i as int)[0] == fields@[i as int]);
            assert(fields@.skip(i as int).skip(1) =~= fields@.skip(i + 1));
        }
        if let Some(child) = node_child_by_field_name(node, fields[i]) {
            if !node_is(&child, capture) {
                return read_text(&child, source).1;
            }
        }
        i += 1;
    }
    None
}

/// The text of the first child of `node` that is of an identifier kind and
/// is not the capture. Both are nodes of one tree.
fn read_identifier(node: &tree_sitter::Node, capture: &tree_sitter::Node, source: &str) -> (r: Option<
    String,
>)
    requires
        node_owner(*node) == node_owner(*capture),
    ensures
        text_of(r) == identifier_of(
            node_place(*node).nodes,
            node_place(*node).index,
            node_place(*capture).index,
            source@,
        ),
{
    let ghost nodes = node_place(*node).nodes;
    let ghost at = node_place(*node).index;
    let ghost taken = node_place(*capture).index;
    let count = node_child_count(node);
    let mut i: usize = 0;
    while i < count
        invariant
            i <= count,
            count == nodes[at].children.len(),
            nodes == node_place(*node).nodes,
            at == node_place(*node).index,
            taken == node_place(*capture).index,
            node_owner(*node) == node_owner(*capture),
            identifier_node(nodes, at, taken, 0) == identifier_node(nodes, at, taken, i as int),
        decreases count - i,
    {
        if let Some(child) = node_child(node, i) {
            if crate::scope::has_word(
                &crate::text::chars_of(node_kind(&child)),
                &crate::text::chars_of("identifier"),
            ) && !node_is(&child, capture) {
                return read_text(&child, source).1;
            }
        }
        i += 1;
    }
    None
}

/// What the naming rules read of `node`, a node around `capture` in one
/// tree.
fn read_scope(node: &tree_sitter::Node, capture: &tree_sitter::Node, source: &str) -> (r:
    ScopeFacts)
    requires
        node_owner(*node) == node_owner(*capture),
    ensures
        r@ == scope_of(
            node_place(*node).nodes,
            node_place(*node).index,
            node_place(*capture).index,
            source@,
        ),
{
    let kind = String::from_str(node_kind(node));
    let qualifier = read_qualifier(node, capture, source);
    let names: Vec<&'static str> = vec!["name", "identifier", "declarator"];
    assert(names@ =~= naming_fields());
    match first_field(node, &names) {
        Some(child) => ScopeFacts {
            kind,
            qualifier,
            name: read_text(&child, source).1,
            names_capture: node_is(&child, capture),
            identifier: None,
        },
        None => ScopeFacts {
            kind,
            qualifier,
            name: None,
            names_capture: false,
            identifier: read_identifier(node, capture, source),
        },
    }
}

/// The nodes around `capture`, from the nearest outwards. A node has fewer
/// nodes around it than the machine can count.
fn read_scopes(capture: &tree_sitter::Node, source: &str) -> (r: Vec<ScopeFacts>)
    ensures
        r.deep_view() == scopes_of(node_place(*capture).nodes, node_place(*capture).index, source@),
{
    let ghost nodes = node_place(*capture).nodes;
    let ghost taken = node_place(*capture).index;
    let mut scopes: Vec<ScopeFacts> = Vec::new();
    let mut current = node_parent(capture);
    let ghost mut at: Option<int> = nodes[taken].parent;
    let mut left: usize = usize::MAX;
    assert(scopes.deep_view() =~= Seq::<ScopeModel>::empty());
    while left > 0 && current.is_some()
        invariant
            nodes == node_place(*capture).nodes,
            taken == node_place(*capture).index,
            beside(current, *capture, at),
            current is Some ==> node_owner(current.unwrap()) == node_owner(*capture),
            scopes_of(nodes, taken, source@) == scopes.deep_view() + scopes_from(
                nodes,
                at,
                taken,
                source@,
                left as nat,
            ),
        decreases left,
    {
        if let Some(node) = current {
            let ghost before = scopes.deep_view();
            let scope = read_scope(&node, capture, source);
            scopes.push(scope);
            current = node_parent(&node);
            proof {
                let above = nodes[at.unwrap()].parent;
                assert(scopes.deep_view() =~= before.push(scope@));
                assert(before + (seq![scope@] + scopes_from(
                    nodes,
                    above,
                    taken,
                    source@,
                    (left - 1) as nat,
                )) =~= before.push(scope@) + scopes_from(
                    nodes,
                    above,
                    taken,
                    source@,
                    (left - 1) as nat,
                ));
                at = above;
            }
        }
        left -= 1;
    }
    assert(scopes.deep_view() + Seq::<ScopeModel>::empty() =~= scopes.deep_view());
    scopes
}

/// The captured nodes as the extractor reads them; a node whose text cannot
/// be read is left out.
fn read_captures(found: &Vec<tree_sitter::Node>, source: &str) -> (r: Vec<Capture>)
    ensures
        r.deep_view() == captures_at(places_of(found@), source@),
{
    let ghost all = places_of(found@);
    let mut captures: Vec<Capture> = Vec::new();
    let mut i: usize = 0;
    assert(captures.deep_view() =~= Seq::<CaptureModel>::empty());
    while i < found.len()
        invariant
            i <= found.len(),
            all == places_of(found@),
            captures.deep_view() == captures_at(all.take(i as int), source@),
        decreases found.len() - i,
    {
        proof {
            assert(all.take(i + 1).drop_last() =~= all.take(i as int));
            assert(all.take(i + 1).last() == node_place(found@[i as int]));
        }
        let (range, read) = read_text(&found[i], source);
        if let Some(text) = read {
            let ghost before = captures.deep_view();
            let capture = Capture { text, range, scopes: read_scopes(&found[i], source) };
            assert(Some(capture@) == capture_at(node_place(found@[i as int]), source@));
            captures.push(capture);
            assert(captures.deep_view() =~= before.push(capture@));
        }
        i += 1;
    }
    assert(all.take(found.len() as int) =~= all);
    captures
}

/// The extents of the captured nodes.
fn read_ranges(found: &Vec<tree_sitter::Node>) -> (r: Vec<RangeWrapper>)
    ensures
        r@ == extents_at(places_of(found@)),
{
    let mut ranges: Vec<RangeWrapper> = Vec::new();
    let mut i: usize = 0;
    while i < found.len()
        invariant
            i <= found.len(),
            ranges.len() == i,
            forall|k: int| 0 <= k < i ==> ranges@[k] == facts(#[trigger] found@[k]).range,
        decreases found.len() - i,
    {
        ranges.push(RangeWrapper::from(node_range(&found[i])));
        i += 1;
    }
    assert(ranges@ =~= extents_at(places_of(found@)));
    ranges
}

/// The node of the first capture of each match.
fn first_of_each<'t>(matches: &Vec<Vec<tree_sitter::Node<'t>>>) -> (r: Vec<tree_sitter::Node<'t>>)
    ensures
        r@ == firsts(Seq::new(matches@.len(), |i: int| matches@[i]@)),
{
    let ghost all = Seq::new(matches@.len(), |i: int| matches@[i]@);
    let mut found: Vec<tree_sitter::Node<'t>> = Vec::new();
    let mut i: usize = 0;
    while i < matches.len()
        invariant
            i <= matches.len(),
            all == Seq::new(matches@.len(), |i: int| matches@[i]@),
            found@ == firsts(all.take(i as int)),
        decreases matches.len() - i,
    {
        proof {
            assert(all.take(i + 1).drop_last() =~= all.take(i as int));
            assert(all.take(i + 1).last() == matches@[i as int]@);
        }
        if matches[i].len() > 0 {
            found.push(matches[i][0]);
        }
        i += 1;
    }
    assert(all.take(matches.len() as int) =~= all);
    found
}

/// The first captures of matches stand where the first indices say.
proof fn lemma_firsts(
    matches: Seq<Seq<tree_sitter::Node>>,
    indices: Seq<Seq<int>>,
    nodes: Seq<SyntaxNode>,
)
    requires
        matches.len() == indices.len(),
        forall|i: int| 0 <= i < matches.len() ==> (#[trigger] matches[i]).len() == indices[i].len(),
        forall|i: int, j: int|
            0 <= i < matches.len() && 0 <= j < matches[i].len() ==> node_place(
                #[trigger] matches[i][j],
            ) == (Place { nodes, index: indices[i][j] }),
    ensures
        places_of(firsts(matches)) == places(nodes, firsts(indices)),
    decreases matches.len(),
{
    if matches.len() > 0 {
        let front = matches.drop_last();
        let shorter = indices.drop_last();
        assert forall|i: int| 0 <= i < front.len() implies (#[trigger] front[i]).len()
            == shorter[i].len() by {
            assert(front[i] == matches[i]);
        }
        assert forall|i: int, j: int| 0 <= i < front.len() && 0 <= j < front[i].len() implies node_place(
            #[trigger] front[i][j],
        ) == (Place { nodes, index: shorter[i][j] }) by {
            assert(front[i] == matches[i]);
            assert(node_place(matches[i][j]) == (Place { nodes, index: indices[i][j] }));
        }
        lemma_firsts(front, shorter, nodes);
        let last = matches.len() - 1;
        assert(matches[last].len() == indices[last].len());
        let before = places_of(firsts(front));
        assert(before == places(nodes, firsts(shorter)));
        if matches[last].len() > 0 {
            assert(node_place(matches[last][0]) == (Place { nodes, index: indices[last][0] }));
            assert(places_of(firsts(matches)) =~= before.push(node_place(matches[last][0])));
            assert(places(nodes, firsts(indices)) =~= places(nodes, firsts(shorter)).push(
                Place { nodes, index: indices[last][0] },
            ));
        }
    } else {
        assert(places_of(firsts(matches)) =~= places(nodes, firsts(indices)));
    }
}

/// The nodes that a query of a rule captures in the tree of `source`; none
/// for an empty query.
fn run_query<'t>(
    language: &tree_sitter::Language,
    grammar: &str,
    tree: &'t tree_sitter::Tree,
    source: &str,
) -> (r: Result<Vec<tree_sitter::Node<'t>>, ExtractError>)
    requires
        tree_view(*tree).grammar == grammar_id(*language),
        tree_view(*tree).source == source@,
    ensures
        r is Ok <==> query_nodes(grammar_id(*language), grammar@, source@) is Some,
        r is Ok ==> places_of(r.unwrap()@) == places(
            tree_view(*tree).nodes,
            query_nodes(grammar_id(*language), grammar@, source@).unwrap(),
        ),
        r is Err ==> r.unwrap_err() == ExtractError::Query,
{
    if grammar.is_empty() {
        let none: Vec<tree_sitter::Node<'t>> = Vec::new();
        assert(places_of(none@) =~= places(tree_view(*tree).nodes, Seq::empty()));
        return Ok(none);
    }
    match query_new(language, grammar) {
        Ok(query) => {
            let mut cursor = cursor_new();
            let matches = cursor_matches(&mut cursor, &query, tree, source);
            proof {
                lemma_firsts(
                    Seq::new(matches@.len(), |i: int| matches@[i]@),
                    matches_of(grammar_id(*language), grammar@, source@),
                    tree_view(*tree).nodes,
                );
            }
            Ok(first_of_each(&matches))
        },
        Err(_) => Err(ExtractError::Query),
    }
}

impl Extractor {
    /// The rule of this language.
    pub fn get_rule(&self) -> (r: Rule)
        ensures
            r@ == rule_of(*self),
    {
        get_rule(self)
    }

    /// Whether the language writes the receiver of a method in parentheses
    /// before the method's name.
    pub open spec fn writes_receivers(self) -> bool {
        self == Extractor::Go
    }

    /// The grammar of this language.
    fn language(&self) -> (r: tree_sitter::Language)
        ensures
            grammar_id(r) == grammar_of(*self),
    {
        match self {
            Extractor::Rust => language_rust(),
            Extractor::TypeScript => language_typescript(),
            Extractor::Go => language_go(),
            Extractor::Python => language_python(),
            Extractor::JavaScript => language_javascript(),
            Extractor::Java => language_java(),
            Extractor::Kotlin => language_kotlin(),
            Extractor::Swift => language_swift(),
            Extractor::CSharp => language_c_sharp(),
            Extractor::C => language_c(),
            Extractor::Cpp => language_cpp(),
        }
    }

    /// Parses `s` and runs the queries of this language's rule on it.
    /// Scopes are captured only where the rule prunes nested definitions.
    pub fn capture(&self, s: &String) -> (r: Result<Captures, ExtractError>)
        ensures
            captures_value(r) == captured_by(grammar_of(*self), rule_of(*self), s@),
    {
        self.capture_with(&self.get_rule(), s)
    }

    /// Parses `s` in this language and runs the queries of `rule` on it:
    /// definitions, references, imports and, where the rule prunes nested
    /// definitions, scopes. An empty query captures nothing.
    pub fn capture_with(&self, rule: &Rule, s: &String) -> (r: Result<Captures, ExtractError>)
        ensures
            captures_value(r) == captured_by(grammar_of(*self), rule@, s@),
    {
        let language = self.language();
        let mut parser = parser_new();
        if parser_set_language(&mut parser, &language).is_err() {
            return Err(ExtractError::Language);
        }
        let tree = match parser_parse(&mut parser, s.as_str()) {
            Some(tree) => tree,
            None => {
                return Err(ExtractError::Parse);
            },
        };
        assert(captured_by(grammar_of(*self), rule@, s@) == captured_in(
            grammar_of(*self),
            rule@,
            tree_view(tree).nodes,
            s@,
        ));
        let defs = match run_query(&language, rule.export_grammar, &tree, s.as_str()) {
            Ok(nodes) => read_captures(&nodes, s.as_str()),
            Err(e) => {
                return Err(e);
            },
        };
        let refs = match run_query(&language, rule.import_grammar, &tree, s.as_str()) {
            Ok(nodes) => read_captures(&nodes, s.as_str()),
            Err(e) => {
                return Err(e);
            },
        };
        let deps = match run_query(&language, rule.dep_grammar, &tree, s.as_str()) {
            Ok(nodes) => read_captures(&nodes, s.as_str()),
            Err(e) => {
                return Err(e);
            },
        };
        let namespaces = if rule.namespace_filter_level > 0 {
            match run_query(&language, rule.namespace_grammar, &tree, s.as_str()) {
                Ok(nodes) => read_ranges(&nodes),
                Err(e) => {
                    return Err(e);
                },
            }
        } else {
            let none: Vec<RangeWrapper> = Vec::new();
            assert(none@ =~= extents_at(places(tree_view(tree).nodes, Seq::empty())));
            none
        };
        Ok(Captures { defs, refs, deps, namespaces })
    }

    /// The symbols of the file `f` with the text `s`, or why there are none:
    /// what [`symbols_of_captures`] makes of what the queries of this
    /// language's rule capture in `s`.
    pub fn try_extract(&self, f: &String, s: &String) -> (r: Result<Vec<Symbol>, ExtractError>)
        ensures
            symbols_value(r) == symbols_by(*self, rule_of(*self), f@, s@),
    {
        self.try_extract_with(&self.get_rule(), f, s)
    }

    /// The symbols that `rule` finds in the file `f` with the text `s`,
    /// read as a text of this language, or why there are none.
    pub fn try_extract_with(&self, rule: &Rule, f: &String, s: &String) -> (r: Result<
        Vec<Symbol>,
        ExtractError,
    >)
        ensures
            symbols_value(r) == symbols_by(*self, rule@, f@, s@),
    {
        match self.capture_with(rule, s) {
            Ok(captures) => {
                let receivers = match self {
                    Extractor::Go => true,
                    _ => false,
                };
                Ok(symbols_of_captures(f, rule, receivers, &captures))
            },
            Err(e) => Err(e),
        }
    }

    /// The symbols of the file `f` with the text `s`: its definitions,
    /// references and imports, without scopes. A file that cannot be read
    /// gives no symbols.
    pub fn extract(&self, f: &String, s: &String) -> (r: Vec<Symbol>)
        ensures
            r.deep_view() == symbols_in(*self, f@, s@),
    {
        match self.try_extract(f, s) {
            Ok(symbols) => symbols,
            Err(_) => {
                let none: Vec<Symbol> = Vec::new();
                assert(none.deep_view() =~= Seq::<SymbolModel>::empty());
                none
            },
        }
    }
}

} // verus!

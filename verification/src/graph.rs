//! Building the graph of a repository: the symbols of each file, the global
//! tables of definitions and references, and the weighted links between
//! them.

use crate::extractor::Extractor;
use crate::history::{history_of, HistoryModel};
use crate::model::GraphModel;
use crate::scope::after_last;
use crate::symbol::SymbolGraph;
use crate::symbol::{Symbol, SymbolKind, SymbolModel};
use crate::table::{singles, tabled, SymbolTable};
use crate::text::{chars_of, lowercase, lowercased, same_text, string_of, text_of_bytes};
use crate::weight::Ratio;
use vstd::prelude::*;
use vstd::string::*;

verus! {

/// The symbols that were extracted from one file.
pub struct FileContext {
    pub path: String,
    pub symbols: Vec<Symbol>,
}

/// The mathematical value of a [`FileContext`].
pub struct FileContextModel {
    pub path: Seq<char>,
    pub symbols: Seq<SymbolModel>,
}

impl View for FileContext {
    type V = FileContextModel;

    open spec fn view(&self) -> FileContextModel {
        FileContextModel { path: self.path@, symbols: self.symbols.deep_view() }
    }
}

impl DeepView for FileContext {
    type V = FileContextModel;

    open spec fn deep_view(&self) -> FileContextModel {
        self@
    }
}

/// The paths of a list of files with their symbols.
pub open spec fn paths_of(contexts: Seq<FileContextModel>) -> Seq<Seq<char>> {
    Seq::new(contexts.len(), |i: int| contexts[i].path)
}

/// Whether the scope `namespace` strictly contains the line `line`.
pub open spec fn encloses(namespace: SymbolModel, line: usize) -> bool {
    namespace.range.start_point.row < line && line < namespace.range.end_point.row
}

/// The number of scopes among `namespaces` that strictly contain `line`.
pub open spec fn line_depth(namespaces: Seq<SymbolModel>, line: usize) -> nat
    decreases namespaces.len(),
{
    if namespaces.len() == 0 {
        0
    } else if encloses(namespaces.last(), line) {
        line_depth(namespaces.drop_last(), line) + 1
    } else {
        line_depth(namespaces.drop_last(), line)
    }
}

/// The scopes of one file, to tell how deeply a line is nested.
pub struct NamespaceManager<'a> {
    namespaces: Vec<&'a Symbol>,
}

impl<'a> NamespaceManager<'a> {
    /// The scopes that the manager holds.
    pub closed spec fn scopes(&self) -> Seq<SymbolModel> {
        Seq::new(self.namespaces@.len(), |i: int| self.namespaces@[i]@)
    }

    pub fn new(namespaces: Vec<&'a Symbol>) -> (r: Self)
        ensures
            r.scopes() == Seq::new(namespaces@.len(), |i: int| namespaces@[i]@),
    {
        NamespaceManager { namespaces }
    }

    /// The number of scopes that start before `line` and end after it.
    pub fn get_line_depth(&self, line: usize) -> (depth: usize)
        ensures
            depth == line_depth(self.scopes(), line),
    {
        let mut depth: usize = 0;
        let mut i: usize = 0;
        while i < self.namespaces.len()
            invariant
                i <= self.namespaces.len(),
                depth == line_depth(self.scopes().take(i as int), line),
                depth <= i,
            decreases self.namespaces.len() - i,
        {
            proof {
                assert(self.scopes().take(i + 1).drop_last() =~= self.scopes().take(i as int));
                assert(self.scopes().take(i + 1).last() == self.namespaces@[i as int]@);
            }
            let namespace = self.namespaces[i];
            if namespace.range.start_point.row < line && line < namespace.range.end_point.row {
                depth += 1;
            }
            i += 1;
        }
        assert(self.scopes().take(self.namespaces.len() as int) =~= self.scopes());
        depth
    }
}

/// Whether pruning at `level` keeps the symbol `s` of a file with the scopes
/// `namespaces`: scopes themselves go, and so do definitions nested in
/// `level` scopes or more, unless `level` is zero.
pub open spec fn survives(namespaces: Seq<SymbolModel>, level: usize, s: SymbolModel) -> bool {
    s.kind != SymbolKind::NAMESPACE && !(level > 0 && s.kind == SymbolKind::DEF && line_depth(
        namespaces,
        s.range.start_point.row,
    ) >= level)
}

/// The symbols of `symbols` that pruning against `namespaces` keeps.
pub open spec fn survivors(
    symbols: Seq<SymbolModel>,
    namespaces: Seq<SymbolModel>,
    level: usize,
) -> Seq<SymbolModel>
    decreases symbols.len(),
{
    if symbols.len() == 0 {
        Seq::empty()
    } else if survives(namespaces, level, symbols.last()) {
        survivors(symbols.drop_last(), namespaces, level).push(symbols.last())
    } else {
        survivors(symbols.drop_last(), namespaces, level)
    }
}

/// A file's symbols after pruning: its scopes are those among the symbols
/// themselves.
pub open spec fn pruned(symbols: Seq<SymbolModel>, level: usize) -> Seq<SymbolModel> {
    survivors(symbols, crate::model::of_kind(symbols, SymbolKind::NAMESPACE), level)
}

/// What survives pruning is no scope and no definition nested too deeply.
pub proof fn lemma_survivors(symbols: Seq<SymbolModel>, namespaces: Seq<SymbolModel>, level: usize)
    ensures
        forall|i: int|
            0 <= i < survivors(symbols, namespaces, level).len() ==> survives(
                namespaces,
                level,
                #[trigger] survivors(symbols, namespaces, level)[i],
            ) && symbols.contains(survivors(symbols, namespaces, level)[i]),
    decreases symbols.len(),
{
    if symbols.len() > 0 {
        let rest = symbols.drop_last();
        lemma_survivors(rest, namespaces, level);
        let kept = survivors(symbols, namespaces, level);
        assert forall|i: int| 0 <= i < kept.len() implies survives(
            namespaces,
            level,
            #[trigger] kept[i],
        ) && symbols.contains(kept[i]) by {
            if i < survivors(rest, namespaces, level).len() {
                let s = survivors(rest, namespaces, level)[i];
                assert(kept[i] == s);
                let k = choose|k: int| 0 <= k < rest.len() && rest[k] == s;
                assert(symbols[k] == s);
            } else {
                assert(kept[i] == symbols[symbols.len() - 1]);
            }
        }
    }
}

/// Drops the scopes from a file's symbols, and with them the definitions
/// that lie in `level` scopes or more (none where `level` is zero).
pub fn prune_nested(symbols: &Vec<Symbol>, level: usize) -> (r: Vec<Symbol>)
    ensures
        r.deep_view() == pruned(symbols.deep_view(), level),
        forall|i: int| 0 <= i < r.len() ==> (#[trigger] r[i])@.kind != SymbolKind::NAMESPACE,
        level > 0 ==> forall|i: int|
            0 <= i < r.len() && (#[trigger] r[i])@.kind == SymbolKind::DEF ==> line_depth(
                crate::model::of_kind(symbols.deep_view(), SymbolKind::NAMESPACE),
                r[i]@.range.start_point.row,
            ) < level,
{
    let ghost scopes = crate::model::of_kind(symbols.deep_view(), SymbolKind::NAMESPACE);
    let mut namespaces: Vec<&Symbol> = Vec::new();
    let mut i: usize = 0;
    while i < symbols.len()
        invariant
            i <= symbols.len(),
            Seq::new(namespaces@.len(), |k: int| namespaces@[k]@) == crate::model::of_kind(
                symbols.deep_view().take(i as int),
                SymbolKind::NAMESPACE,
            ),
        decreases symbols.len() - i,
    {
        proof {
            assert(symbols.deep_view().take(i + 1).drop_last() =~= symbols.deep_view().take(
                i as int,
            ));
        }
        let ghost before = Seq::new(namespaces@.len(), |k: int| namespaces@[k]@);
        if symbols[i].kind == SymbolKind::NAMESPACE {
            namespaces.push(&symbols[i]);
            assert(Seq::new(namespaces@.len(), |k: int| namespaces@[k]@) =~= before.push(
                symbols[i as int]@,
            ));
        }
        i += 1;
    }
    assert(symbols.deep_view().take(symbols.len() as int) =~= symbols.deep_view());
    let manager = NamespaceManager::new(namespaces);
    let mut out: Vec<Symbol> = Vec::new();
    let mut j: usize = 0;
    while j < symbols.len()
        invariant
            j <= symbols.len(),
            manager.scopes() == scopes,
            out.deep_view() == survivors(symbols.deep_view().take(j as int), scopes, level),
        decreases symbols.len() - j,
    {
        proof {
            assert(symbols.deep_view().take(j + 1).drop_last() =~= symbols.deep_view().take(
                j as int,
            ));
        }
        let ghost before = out.deep_view();
        let symbol = &symbols[j];
        let keep = match symbol.kind {
            SymbolKind::NAMESPACE => false,
            SymbolKind::DEF => level == 0 || manager.get_line_depth(symbol.range.start_point.row)
                < level,
            _ => true,
        };
        if keep {
            out.push(symbol.clone());
            assert(out.deep_view() =~= before.push(symbol@));
        }
        j += 1;
    }
    proof {
        assert(symbols.deep_view().take(symbols.len() as int) =~= symbols.deep_view());
        lemma_survivors(symbols.deep_view(), scopes, level);
        assert forall|i: int| 0 <= i < out.len() implies (#[trigger] out[i])@.kind
            != SymbolKind::NAMESPACE && (level > 0 && out[i]@.kind == SymbolKind::DEF ==> line_depth(
            scopes,
            out[i]@.range.start_point.row,
        ) < level) by {
            assert(out[i]@ == out.deep_view()[i]);
        }
    }
    out
}

/// The relations between the files of a repository: the symbols of each
/// file, the history of the repository, and the graph that links files to
/// their symbols and references to definitions.
pub struct Graph {
    pub(crate) file_contexts: Vec<FileContext>,
    pub(crate) _relation_graph: cupido::relation::graph::RelationGraph,
    pub(crate) symbol_graph: SymbolGraph,
}

/// The mathematical value of a [`Graph`].
pub struct GraphView {
    pub contexts: Seq<FileContextModel>,
    pub history: HistoryModel,
    pub symbols: GraphModel,
}

impl View for Graph {
    type V = GraphView;

    closed spec fn view(&self) -> GraphView {
        GraphView {
            contexts: self.file_contexts.deep_view(),
            history: history_of(self._relation_graph),
            symbols: self.symbol_graph@,
        }
    }
}

impl Graph {
    /// The symbol graph is well-formed.
    pub closed spec fn wf(&self) -> bool {
        self.symbol_graph.wf()
    }

    /// A graph of the given parts.
    pub fn assemble(
        file_contexts: Vec<FileContext>,
        relation_graph: cupido::relation::graph::RelationGraph,
        symbol_graph: SymbolGraph,
    ) -> (g: Graph)
        requires
            symbol_graph.wf(),
        ensures
            g.wf(),
            g@ == (GraphView {
                contexts: file_contexts.deep_view(),
                history: history_of(relation_graph),
                symbols: symbol_graph@,
            }),
    {
        Graph { file_contexts, _relation_graph: relation_graph, symbol_graph }
    }

    /// The symbols of each file, as they were extracted.
    pub fn file_contexts(&self) -> (r: &Vec<FileContext>)
        ensures
            r.deep_view() == self@.contexts,
    {
        &self.file_contexts
    }

    /// The history of the repository.
    pub fn relation_graph(&self) -> (r: &cupido::relation::graph::RelationGraph)
        ensures
            history_of(*r) == self@.history,
    {
        &self._relation_graph
    }

    /// The graph of files and symbols.
    pub fn symbol_graph(&self) -> (r: &SymbolGraph)
        requires
            self.wf(),
        ensures
            r.wf(),
            r@ == self@.symbols,
    {
        &self.symbol_graph
    }
}

/// The options of a build.
#[derive(Debug, Clone)]
pub struct GraphConfig {
    /// The root of the repository.
    pub project_path: String,
    /// How many definitions at most a reference is linked to.
    pub def_limit: usize,
    /// A commit counts only if it touched fewer files than this share of
    /// all files.
    pub commit_size_limit_ratio: Ratio,
    /// How far back the history is searched.
    pub depth: u32,
    /// A file with this many symbols or more is left out.
    pub symbol_limit: usize,
    /// A symbol whose name is no longer than this is left out.
    pub symbol_len_limit: usize,
    /// Files whose path matches are left out; empty for none.
    pub exclude_file_regex: String,
    pub exclude_author_regex: Option<String>,
    pub exclude_commit_regex: Option<String>,
    pub issue_regex: Option<String>,
    /// The revision to look at instead of the head.
    pub commit_id: Option<String>,
    /// Output leaves out a file with fewer links than this; zero for no
    /// bound.
    pub file_min_links: usize,
    /// Output leaves out a file with more links than this; zero for no
    /// bound.
    pub file_max_links: usize,
}

impl GraphConfig {
    pub fn default() -> (r: GraphConfig)
        ensures
            r.project_path@ == "."@,
            r.def_limit == 16,
            r.commit_size_limit_ratio == (Ratio { numerator: 1, denominator: 1 }),
            r.depth == 10240,
            r.symbol_limit == 4096,
            r.symbol_len_limit == 0,
            r.exclude_file_regex@.len() == 0,
            r.exclude_author_regex is None,
            r.exclude_commit_regex is None,
            r.issue_regex is None,
            r.commit_id is None,
            r.file_min_links == 0,
            r.file_max_links == 0,
    {
        GraphConfig {
            project_path: String::from_str("."),
            def_limit: 16,
            commit_size_limit_ratio: Ratio { numerator: 1, denominator: 1 },
            depth: 10240,
            symbol_limit: 4096,
            symbol_len_limit: 0,
            exclude_file_regex: String::new(),
            exclude_author_regex: None,
            exclude_commit_regex: None,
            issue_regex: None,
            commit_id: None,
            file_min_links: 0,
            file_max_links: 0,
        }
    }

    /// Whether output keeps a file with `links` links: bounds of zero do
    /// not bind.
    pub open spec fn allows_links(&self, links: usize) -> bool {
        (self.file_min_links == 0 || links >= self.file_min_links) && (self.file_max_links == 0
            || links <= self.file_max_links)
    }

    /// Whether output keeps a file with `links` links.
    pub fn link_count_allowed(&self, links: usize) -> (r: bool)
        ensures
            r == self.allows_links(links),
    {
        (self.file_min_links == 0 || links >= self.file_min_links) && (self.file_max_links == 0
            || links <= self.file_max_links)
    }
}

/// A symbol with the weight of a link to it.
#[derive(Debug)]
pub struct RelatedSymbol {
    pub symbol: Symbol,
    pub weight: usize,
}

impl View for RelatedSymbol {
    type V = (SymbolModel, usize);

    open spec fn view(&self) -> (SymbolModel, usize) {
        (self.symbol@, self.weight)
    }
}

impl DeepView for RelatedSymbol {
    type V = (SymbolModel, usize);

    open spec fn deep_view(&self) -> (SymbolModel, usize) {
        self@
    }
}

impl Clone for RelatedSymbol {
    fn clone(&self) -> (r: RelatedSymbol)
        ensures
            r@ == self@,
    {
        RelatedSymbol { symbol: self.symbol.clone(), weight: self.weight }
    }
}

/// A file of the repository with its text.
pub struct SourceFile {
    pub path: String,
    pub content: String,
}

/// The file at `path` with the text that `bytes` encode. A file that is
/// binary, or whose bytes are no UTF-8, is no source file.
pub fn source_of(path: &String, bytes: Vec<u8>, binary: bool) -> (r: Option<SourceFile>)
    ensures
        r is Some <==> !binary && vstd::utf8::valid_utf8(bytes@),
        r is Some ==> r.unwrap().path@ == path@ && r.unwrap().content@ == vstd::utf8::decode_utf8(
            bytes@,
        ),
{
    if binary {
        return None;
    }
    match text_of_bytes(bytes) {
        Some(content) => Some(SourceFile { path: path.clone(), content }),
        None => None,
    }
}

/// The part of a file name after its last dot; the whole name without one.
pub open spec fn extension_of(file_name: Seq<char>) -> Seq<char> {
    file_name.skip(after_last(file_name, '.'))
}

/// The language of the files with an extension, which is given in
/// lowercase.
pub open spec fn extractor_of(extension: Seq<char>) -> Option<Extractor> {
    if extension == "rs"@ {
        Some(Extractor::Rust)
    } else if extension == "ts"@ || extension == "tsx"@ {
        Some(Extractor::TypeScript)
    } else if extension == "go"@ {
        Some(Extractor::Go)
    } else if extension == "py"@ {
        Some(Extractor::Python)
    } else if extension == "js"@ || extension == "jsx"@ {
        Some(Extractor::JavaScript)
    } else if extension == "java"@ {
        Some(Extractor::Java)
    } else if extension == "kt"@ {
        Some(Extractor::Kotlin)
    } else if extension == "swift"@ {
        Some(Extractor::Swift)
    } else if extension == "cs"@ {
        Some(Extractor::CSharp)
    } else if extension == "c"@ || extension == "h"@ {
        Some(Extractor::C)
    } else if extension == "cpp"@ || extension == "hpp"@ || extension == "cc"@ {
        Some(Extractor::Cpp)
    } else {
        None
    }
}

/// The language in which the file with the name `file_name` is written,
/// judged by its extension; none for an extension that is not supported.
pub open spec fn language_of(file_name: Seq<char>) -> Option<Extractor> {
    extractor_of(lowercased(extension_of(file_name)))
}

/// The language of the files with an extension, which is given in
/// lowercase.
pub fn extractor_for_extension(extension: &str) -> (r: Option<Extractor>)
    ensures
        r == extractor_of(extension@),
{
    if same_text(extension, "rs") {
        Some(Extractor::Rust)
    } else if same_text(extension, "ts") || same_text(extension, "tsx") {
        Some(Extractor::TypeScript)
    } else if same_text(extension, "go") {
        Some(Extractor::Go)
    } else if same_text(extension, "py") {
        Some(Extractor::Python)
    } else if same_text(extension, "js") || same_text(extension, "jsx") {
        Some(Extractor::JavaScript)
    } else if same_text(extension, "java") {
        Some(Extractor::Java)
    } else if same_text(extension, "kt") {
        Some(Extractor::Kotlin)
    } else if same_text(extension, "swift") {
        Some(Extractor::Swift)
    } else if same_text(extension, "cs") {
        Some(Extractor::CSharp)
    } else if same_text(extension, "c") || same_text(extension, "h") {
        Some(Extractor::C)
    } else if same_text(extension, "cpp") || same_text(extension, "hpp") || same_text(
        extension,
        "cc",
    ) {
        Some(Extractor::Cpp)
    } else {
        None
    }
}

/// The language in which a file is written, judged by its extension.
pub fn extractor_for_file(file_name: &String) -> (r: Option<Extractor>)
    ensures
        r == language_of(file_name@),
{
    let chars = chars_of(file_name.as_str());
    let mut start: usize = chars.len();
    while start > 0 && chars[start - 1] != '.'
        invariant
            start <= chars.len(),
            forall|j: int| start <= j < chars.len() ==> chars@[j] != '.',
        decreases start,
    {
        start -= 1;
    }
    let mut tail: Vec<char> = Vec::new();
    let mut i: usize = start;
    while i < chars.len()
        invariant
            start <= i <= chars.len(),
            tail@ == chars@.subrange(start as int, i as int),
        decreases chars.len() - i,
    {
        tail.push(chars[i]);
        assert(chars@.subrange(start as int, i + 1) =~= chars@.subrange(start as int, i as int).push(
            chars@[i as int],
        ));
        i += 1;
    }
    proof {
        crate::scope::lemma_after_last(chars@, '.', start as int);
        assert(tail@ =~= extension_of(file_name@));
    }
    let extension = lowercase(string_of(&tail).as_str());
    extractor_for_extension(extension.as_str())
}

/// All symbols of the files, file after file.
pub open spec fn all_symbols(contexts: Seq<FileContextModel>) -> Seq<SymbolModel>
    decreases contexts.len(),
{
    if contexts.len() == 0 {
        Seq::empty()
    } else {
        all_symbols(contexts.drop_last()) + contexts.last().symbols
    }
}

/// The number of bytes of a name in UTF-8.
pub open spec fn name_len(name: Seq<char>) -> nat {
    vstd::utf8::encode_utf8(name).len()
}

/// Whether a symbol has a point: its name is longer than `limit`, and a
/// definition is referenced somewhere, a reference defined somewhere.
pub open spec fn has_point(
    s: SymbolModel,
    defs: Map<Seq<char>, Seq<SymbolModel>>,
    refs: Map<Seq<char>, Seq<SymbolModel>>,
    limit: usize,
) -> bool {
    &&& name_len(s.name) > limit
    &&& s.kind == SymbolKind::DEF ==> refs.contains_key(s.name)
    &&& s.kind == SymbolKind::REF ==> defs.contains_key(s.name)
}

/// The symbols of `symbols` that have a point.
pub open spec fn with_point(
    symbols: Seq<SymbolModel>,
    defs: Map<Seq<char>, Seq<SymbolModel>>,
    refs: Map<Seq<char>, Seq<SymbolModel>>,
    limit: usize,
) -> Seq<SymbolModel>
    decreases symbols.len(),
{
    if symbols.len() == 0 {
        Seq::empty()
    } else if has_point(symbols.last(), defs, refs, limit) {
        with_point(symbols.drop_last(), defs, refs, limit).push(symbols.last())
    } else {
        with_point(symbols.drop_last(), defs, refs, limit)
    }
}

/// The files, each with those of its symbols that have a point.
pub open spec fn pointed(
    contexts: Seq<FileContextModel>,
    defs: Map<Seq<char>, Seq<SymbolModel>>,
    refs: Map<Seq<char>, Seq<SymbolModel>>,
    limit: usize,
) -> Seq<FileContextModel> {
    Seq::new(
        contexts.len(),
        |i: int|
            FileContextModel {
                path: contexts[i].path,
                symbols: with_point(contexts[i].symbols, defs, refs, limit),
            },
    )
}

/// The global tables of a set of files: the definitions by name, the
/// references by name, and the definitions whose name no other bears.
pub fn build_global_symbol_table(file_contexts: &Vec<FileContext>) -> (r: (
    SymbolTable,
    SymbolTable,
    SymbolTable,
))
    ensures
        r.0.wf() && r.1.wf() && r.2.wf(),
        r.0@ == tabled(all_symbols(file_contexts.deep_view()), SymbolKind::DEF),
        r.1@ == tabled(all_symbols(file_contexts.deep_view()), SymbolKind::REF),
        r.2@ == singles(r.0@),
{
    let mut defs = SymbolTable::new();
    let mut refs = SymbolTable::new();
    let ghost contexts = file_contexts.deep_view();
    let mut i: usize = 0;
    while i < file_contexts.len()
        invariant
            i <= file_contexts.len(),
            contexts == file_contexts.deep_view(),
            defs.wf(),
            refs.wf(),
            defs@ == tabled(all_symbols(contexts.take(i as int)), SymbolKind::DEF),
            refs@ == tabled(all_symbols(contexts.take(i as int)), SymbolKind::REF),
        decreases file_contexts.len() - i,
    {
        let symbols = &file_contexts[i].symbols;
        let ghost before = all_symbols(contexts.take(i as int));
        let mut j: usize = 0;
        proof {
            assert(before + symbols.deep_view().take(0) =~= before);
        }
        while j < symbols.len()
            invariant
                j <= symbols.len(),
                defs.wf(),
                refs.wf(),
                defs@ == tabled(before + symbols.deep_view().take(j as int), SymbolKind::DEF),
                refs@ == tabled(before + symbols.deep_view().take(j as int), SymbolKind::REF),
            decreases symbols.len() - j,
        {
            proof {
                let next = before + symbols.deep_view().take(j + 1);
                assert(next.drop_last() =~= before + symbols.deep_view().take(j as int));
                assert(next.last() == symbols[j as int]@);
            }
            match symbols[j].kind {
                SymbolKind::DEF => {
                    defs.add(symbols[j].clone());
                },
                SymbolKind::REF => {
                    refs.add(symbols[j].clone());
                },
                _ => {},
            }
            j += 1;
        }
        proof {
            assert(symbols.deep_view().take(symbols.len() as int) =~= symbols.deep_view());
            assert(contexts.take(i + 1).drop_last() =~= contexts.take(i as int));
            assert(contexts.take(i + 1).last().symbols == symbols.deep_view());
        }
        i += 1;
    }
    assert(contexts.take(file_contexts.len() as int) =~= contexts);
    let unique = defs.unique();
    (defs, refs, unique)
}

/// The files, each without its pointless symbols: those with a name of
/// `symbol_len_limit` bytes or fewer, definitions that nothing references
/// and references that nothing defines.
pub fn filter_pointless_symbols(
    file_contexts: &Vec<FileContext>,
    global_def_symbol_table: &SymbolTable,
    global_ref_symbol_table: &SymbolTable,
    symbol_len_limit: usize,
) -> (r: Vec<FileContext>)
    requires
        global_def_symbol_table.wf(),
        global_ref_symbol_table.wf(),
    ensures
        r.deep_view() == pointed(
            file_contexts.deep_view(),
            global_def_symbol_table@,
            global_ref_symbol_table@,
            symbol_len_limit,
        ),
{
    let ghost defs = global_def_symbol_table@;
    let ghost refs = global_ref_symbol_table@;
    let mut filtered_file_contexts: Vec<FileContext> = Vec::new();
    let mut i: usize = 0;
    while i < file_contexts.len()
        invariant
            i <= file_contexts.len(),
            global_def_symbol_table.wf(),
            global_ref_symbol_table.wf(),
            defs == global_def_symbol_table@,
            refs == global_ref_symbol_table@,
            filtered_file_contexts.len() == i,
            forall|k: int|
                0 <= k < i ==> (#[trigger] filtered_file_contexts[k])@ == pointed(
                    file_contexts.deep_view(),
                    defs,
                    refs,
                    symbol_len_limit,
                )[k],
        decreases file_contexts.len() - i,
    {
        let symbols = &file_contexts[i].symbols;
        let mut kept: Vec<Symbol> = Vec::new();
        let mut j: usize = 0;
        while j < symbols.len()
            invariant
                j <= symbols.len(),
                global_def_symbol_table.wf(),
                global_ref_symbol_table.wf(),
                defs == global_def_symbol_table@,
                refs == global_ref_symbol_table@,
                kept.deep_view() == with_point(
                    symbols.deep_view().take(j as int),
                    defs,
                    refs,
                    symbol_len_limit,
                ),
            decreases symbols.len() - j,
        {
            proof {
                assert(symbols.deep_view().take(j + 1).drop_last() =~= symbols.deep_view().take(
                    j as int,
                ));
                assert(symbols.deep_view().take(j + 1).last() == symbols[j as int]@);
            }
            let ghost before = kept.deep_view();
            let symbol = &symbols[j];
            let long_enough = symbol.name.as_str().as_bytes().len() > symbol_len_limit;
            let answered = match symbol.kind {
                SymbolKind::DEF => global_ref_symbol_table.contains_key(&symbol.name),
                SymbolKind::REF => global_def_symbol_table.contains_key(&symbol.name),
                _ => true,
            };
            if long_enough && answered {
                kept.push(symbol.clone());
                assert(kept.deep_view() =~= before.push(symbol@));
            }
            j += 1;
        }
        assert(symbols.deep_view().take(symbols.len() as int) =~= symbols.deep_view());
        filtered_file_contexts.push(FileContext { path: file_contexts[i].path.clone(), symbols: kept });
        i += 1;
    }
    assert(filtered_file_contexts.deep_view() =~= pointed(
        file_contexts.deep_view(),
        defs,
        refs,
        symbol_len_limit,
    ));
    filtered_file_contexts
}

} // verus!

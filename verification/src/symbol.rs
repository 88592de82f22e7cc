//! Symbols: named occurrences in source files, their positions and identifiers.

use crate::index::NameIndex;
use crate::model::{file_node, of_kind, symbol_node, symbols_among, symbols_of, GraphModel};
use crate::text::{decimal_digits, decimal_string};
use crate::ungraph::{
    graph_add_edge, graph_add_node, graph_contains_edge, graph_edge_count, graph_edge_weight,
    graph_edges, graph_edges_of, graph_find_edge, graph_new, graph_node, graph_node_count,
    graph_nodes, graph_set_edge_weight, incident, joins, lemma_incident_in_range, Store,
};
use vstd::prelude::*;
use vstd::string::*;

verus! {

/// What a symbol occurrence is: a definition site, a reference site, a
/// scope-forming region, or an explicit import path.
#[derive(Debug, Clone, Copy, PartialEq, Eq, Hash, Structural)]
pub enum SymbolKind {
    DEF,
    REF,
    NAMESPACE,
    IMPORT,
}

/// A zero-based (row, column) position in a source file.
#[derive(Clone, Copy, Debug, Default, PartialEq, Eq, Hash, PartialOrd, Ord, Structural)]
pub struct Point {
    pub row: usize,
    pub column: usize,
}

/// The extent of a syntax node: byte offsets and start/end positions.
#[derive(Clone, Copy, Debug, PartialEq, Eq, Hash, PartialOrd, Ord, Structural)]
pub struct RangeWrapper {
    pub start_byte: usize,
    pub end_byte: usize,
    pub start_point: Point,
    pub end_point: Point,
}

/// An occurrence of a named entity in a source file.
#[derive(Debug, PartialEq, Eq, Hash)]
pub struct Symbol {
    pub file: String,
    pub name: String,
    pub range: RangeWrapper,
    pub kind: SymbolKind,
}

/// The mathematical value of a [`Symbol`]: its strings as character sequences.
pub struct SymbolModel {
    pub file: Seq<char>,
    pub name: Seq<char>,
    pub range: RangeWrapper,
    pub kind: SymbolKind,
}

impl View for Symbol {
    type V = SymbolModel;

    open spec fn view(&self) -> SymbolModel {
        SymbolModel { file: self.file@, name: self.name@, range: self.range, kind: self.kind }
    }
}

impl DeepView for Symbol {
    type V = SymbolModel;

    open spec fn deep_view(&self) -> SymbolModel {
        self@
    }
}

impl Clone for Symbol {
    fn clone(&self) -> (r: Symbol)
        ensures
            r@ == self@,
    {
        Symbol {
            file: self.file.clone(),
            name: self.name.clone(),
            range: self.range,
            kind: self.kind,
        }
    }
}

impl SymbolKind {
    /// The tag under which a kind appears in a symbol identifier.
    pub open spec fn label_spec(self) -> Seq<char> {
        match self {
            SymbolKind::DEF => "DEF"@,
            SymbolKind::REF => "REF"@,
            SymbolKind::NAMESPACE => "NAMESPACE"@,
            SymbolKind::IMPORT => "IMPORT"@,
        }
    }

    pub fn label(&self) -> (r: &'static str)
        ensures
            r@ == self.label_spec(),
    {
        match self {
            SymbolKind::DEF => "DEF",
            SymbolKind::REF => "REF",
            SymbolKind::NAMESPACE => "NAMESPACE",
            SymbolKind::IMPORT => "IMPORT",
        }
    }
}

impl SymbolModel {
    /// The identifier of an occurrence: file, name, kind, start byte and
    /// the length of the name, separated by colons. The length at the end
    /// tells where the file ends and the name begins.
    pub open spec fn id(self) -> Seq<char> {
        self.file + ":"@ + self.name + ":"@ + self.kind.label_spec() + ":"@ + decimal_digits(
            self.range.start_byte as nat,
        ) + ":"@ + decimal_digits(self.name.len())
    }
}

impl RangeWrapper {
    /// Copies the parser's `Range`, field by field: both byte offsets and the
    /// row and column of both end points.
    #[verifier::external_body]
    pub fn from(range: tree_sitter::Range) -> (r: RangeWrapper)
        ensures
            r == crate::syntax::range_of(range),
    {
        RangeWrapper {
            start_byte: range.start_byte,
            end_byte: range.end_byte,
            start_point: Point { row: range.start_point.row, column: range.start_point.column },
            end_point: Point { row: range.end_point.row, column: range.end_point.column },
        }
    }
}

impl Symbol {
    pub fn new_def(file: String, name: String, range: RangeWrapper) -> (r: Symbol)
        ensures
            r@ == (SymbolModel { file: file@, name: name@, range, kind: SymbolKind::DEF }),
    {
        Symbol { file, name, kind: SymbolKind::DEF, range }
    }

    pub fn new_ref(file: String, name: String, range: RangeWrapper) -> (r: Symbol)
        ensures
            r@ == (SymbolModel { file: file@, name: name@, range, kind: SymbolKind::REF }),
    {
        Symbol { file, name, kind: SymbolKind::REF, range }
    }

    pub fn is_def(&self) -> (r: bool)
        ensures
            r == (self.kind == SymbolKind::DEF),
    {
        self.kind == SymbolKind::DEF
    }

    /// The identifier of this occurrence. It is a function of the file, the
    /// name, the kind and the start byte alone, and tells any two of them
    /// apart.
    pub fn id(&self) -> (r: String)
        ensures
            r@ == self@.id(),
    {
        let mut s = self.file.clone();
        s.append(":");
        s.append(self.name.as_str());
        s.append(":");
        s.append(self.kind.label());
        s.append(":");
        s.append(decimal_string(self.range.start_byte).as_str());
        s.append(":");
        s.append(decimal_string(self.name.as_str().unicode_len()).as_str());
        s
    }
}

/// What a graph node stands for.
#[derive(Clone)]
pub enum NodeType {
    File,
    Symbol(SymbolData),
}

/// The payload of a symbol node.
#[derive(Clone)]
pub struct SymbolData {
    pub symbol: Symbol,
}

/// A node of the symbol graph: a file, named by its path, or a symbol,
/// named by its identifier.
#[derive(Clone)]
pub struct NodeData {
    pub _id: String,
    pub node_type: NodeType,
}

/// The mathematical value of a [`NodeData`]: its name, and the symbol it
/// carries unless it is a file node.
pub struct NodeModel {
    pub id: Seq<char>,
    pub symbol: Option<SymbolModel>,
}

impl View for NodeData {
    type V = NodeModel;

    open spec fn view(&self) -> NodeModel {
        NodeModel {
            id: self._id@,
            symbol: match self.node_type {
                NodeType::File => None,
                NodeType::Symbol(data) => Some(data.symbol@),
            },
        }
    }
}

impl NodeData {
    /// The symbol of a symbol node; nothing for a file node.
    pub fn get_symbol(&self) -> (r: Option<Symbol>)
        ensures
            match r {
                Some(s) => self@.symbol == Some(s@),
                None => self@.symbol is None,
            },
    {
        match &self.node_type {
            NodeType::Symbol(symbol_data) => Some(symbol_data.symbol.clone()),
            _ => None,
        }
    }
}

/// A definition and a reference to it that are linked in the graph.
pub struct DefRefPair {
    pub src_symbol: Symbol,
    pub dst_symbol: Symbol,
}

impl View for DefRefPair {
    type V = (SymbolModel, SymbolModel);

    open spec fn view(&self) -> (SymbolModel, SymbolModel) {
        (self.src_symbol@, self.dst_symbol@)
    }
}

impl DeepView for DefRefPair {
    type V = (SymbolModel, SymbolModel);

    open spec fn deep_view(&self) -> (SymbolModel, SymbolModel) {
        self@
    }
}

/// An undirected weighted graph over files and symbols. A file is linked to
/// the symbols found in it, a symbol to the symbols it is related to.
pub struct SymbolGraph {
    pub(crate) file_mapping: NameIndex,
    pub(crate) symbol_mapping: NameIndex,
    pub(crate) g: Store,
}

impl View for SymbolGraph {
    type V = GraphModel;

    closed spec fn view(&self) -> GraphModel {
        GraphModel {
            nodes: graph_nodes(self.g),
            edges: graph_edges(self.g),
            files: self.file_mapping@,
            symbols: self.symbol_mapping@,
        }
    }
}

impl SymbolGraph {
    /// The indices and the store agree, and the model is well-formed.
    pub closed spec fn wf(&self) -> bool {
        &&& self.file_mapping.wf()
        &&& self.symbol_mapping.wf()
        &&& self@.wf()
    }

    /// Every graph that the library makes is well-formed as a model.
    pub proof fn lemma_wf(&self)
        requires
            self.wf(),
        ensures
            self@.wf(),
    {
    }

    pub fn new() -> (r: SymbolGraph)
        ensures
            r.wf(),
            r@ == GraphModel::empty(),
    {
        SymbolGraph {
            file_mapping: NameIndex::new(),
            symbol_mapping: NameIndex::new(),
            g: graph_new(),
        }
    }

    /// The number of nodes, files and symbols together.
    pub fn node_count(&self) -> (n: usize)
        ensures
            n == self@.nodes.len(),
    {
        graph_node_count(&self.g)
    }

    /// The number of edges.
    pub fn edge_count(&self) -> (n: usize)
        ensures
            n == self@.edges.len(),
    {
        graph_edge_count(&self.g)
    }

    /// Adds a file node for `name` unless there is one. The store holds at
    /// most `u32::MAX` nodes: a full store stays as it is.
    pub fn add_file(&mut self, name: &String)
        requires
            old(self).wf(),
        ensures
            final(self).wf(),
            final(self)@ == old(self)@.add_file(name@),
    {
        if self.file_mapping.contains_key(name) || graph_node_count(&self.g) >= 0xffff_ffff {
            return ;
        }
        let index = graph_add_node(
            &mut self.g,
            NodeData { _id: name.clone(), node_type: NodeType::File },
        );
        self.file_mapping.insert(name.clone(), index);
        proof {
            let m0 = old(self)@;
            let m1 = self@;
            assert(m1.nodes == m0.nodes.push(file_node(name@)));
            assert forall|p: Seq<char>| #[trigger] m1.files.contains_key(p) implies m1.files[p]
                < m1.nodes.len() && m1.nodes[m1.files[p] as int] == file_node(p) by {
                if p != name@ {
                    assert(m0.files.contains_key(p));
                }
            }
            assert forall|id: Seq<char>| #[trigger] m1.symbols.contains_key(id) implies m1.symbols[id]
                < m1.nodes.len() && m1.nodes[m1.symbols[id] as int].id == id
                && m1.nodes[m1.symbols[id] as int].symbol is Some
                && m1.nodes[m1.symbols[id] as int].symbol.unwrap().id() == id by {
                assert(m0.symbols.contains_key(id));
            }
        }
    }

    /// Adds a symbol node for `symbol` unless a node has its identifier.
    /// A full store stays as it is.
    pub fn add_symbol(&mut self, symbol: Symbol)
        requires
            old(self).wf(),
        ensures
            final(self).wf(),
            final(self)@ == old(self)@.add_symbol(symbol@),
    {
        let id = symbol.id();
        if self.symbol_mapping.contains_key(&id) || graph_node_count(&self.g) >= 0xffff_ffff {
            return ;
        }
        let ghost s = symbol@;
        let index = graph_add_node(
            &mut self.g,
            NodeData { _id: id.clone(), node_type: NodeType::Symbol(SymbolData { symbol }) },
        );
        self.symbol_mapping.insert(id, index);
        proof {
            let m0 = old(self)@;
            let m1 = self@;
            assert(m1.nodes == m0.nodes.push(symbol_node(s)));
            assert forall|p: Seq<char>| #[trigger] m1.files.contains_key(p) implies m1.files[p]
                < m1.nodes.len() && m1.nodes[m1.files[p] as int] == file_node(p) by {
                assert(m0.files.contains_key(p));
            }
            assert forall|id: Seq<char>| #[trigger] m1.symbols.contains_key(id) implies m1.symbols[id]
                < m1.nodes.len() && m1.nodes[m1.symbols[id] as int].id == id
                && m1.nodes[m1.symbols[id] as int].symbol is Some
                && m1.nodes[m1.symbols[id] as int].symbol.unwrap().id() == id by {
                if id != s.id() {
                    assert(m0.symbols.contains_key(id));
                }
            }
        }
    }

    fn link_nodes(&mut self, a: usize, b: usize)
        requires
            old(self).wf(),
            a < old(self)@.nodes.len(),
            b < old(self)@.nodes.len(),
        ensures
            final(self).wf(),
            final(self)@ == old(self)@.link(a, b),
    {
        let found = graph_find_edge(&self.g, a, b);
        if found.is_some() {
            assert(joins(self@.edges[found.unwrap() as int], a, b));
            return ;
        }
        if graph_edge_count(&self.g) >= 0xffff_ffff {
            return ;
        }
        graph_add_edge(&mut self.g, a, b, 0);
        proof {
            let m0 = old(self)@;
            let m1 = self@;
            assert(!m0.linked(a, b));
            assert forall|i: int, j: int| 0 <= i < j < m1.edges.len() implies !joins(
                #[trigger] m1.edges[i],
                (#[trigger] m1.edges[j]).a,
                m1.edges[j].b,
            ) by {
                if j == m0.edges.len() {
                    assert(m1.edges[i] == m0.edges[i]);
                } else {
                    assert(m1.edges[i] == m0.edges[i]);
                    assert(m1.edges[j] == m0.edges[j]);
                }
            }
        }
    }

    /// Links the file `name` to `symbol`, once. Nothing happens unless both
    /// are nodes of the graph. The store holds at most `u32::MAX` edges: a
    /// full store stays as it is.
    pub fn link_file_to_symbol(&mut self, name: &String, symbol: &Symbol)
        requires
            old(self).wf(),
        ensures
            final(self).wf(),
            final(self)@ == old(self)@.link_file_to_symbol(name@, symbol@.id()),
    {
        let file_index = self.file_mapping.get(name);
        let symbol_index = self.symbol_mapping.get(&symbol.id());
        if let (Some(a), Some(b)) = (file_index, symbol_index) {
            self.link_nodes(a, b);
        }
    }

    /// Links the symbols `a` and `b`, once. Nothing happens unless both are
    /// nodes of the graph. A full store stays as it is.
    pub fn link_symbol_to_symbol(&mut self, a: &Symbol, b: &Symbol)
        requires
            old(self).wf(),
        ensures
            final(self).wf(),
            final(self)@ == old(self)@.link_symbol_to_symbol(a@.id(), b@.id()),
    {
        let a_index = self.symbol_mapping.get(&a.id());
        let b_index = self.symbol_mapping.get(&b.id());
        if let (Some(x), Some(y)) = (a_index, b_index) {
            self.link_nodes(x, y);
        }
    }

    /// Adds `ratio` to the weight of the edge between the symbols with the
    /// identifiers `a` and `b`. Nothing happens unless that edge exists. A
    /// weight that would pass `usize::MAX` stays there.
    pub fn enhance_symbol_to_symbol(&mut self, a: &String, b: &String, ratio: usize)
        requires
            old(self).wf(),
        ensures
            final(self).wf(),
            final(self)@ == old(self)@.enhance_symbol_to_symbol(a@, b@, ratio),
    {
        let a_index = self.symbol_mapping.get(a);
        let b_index = self.symbol_mapping.get(b);
        if let (Some(x), Some(y)) = (a_index, b_index) {
            if let Some(e) = graph_find_edge(&self.g, x, y) {
                proof {
                    lemma_one_edge(self@, x, y, e as int);
                }
                let weight = graph_edge_weight(&self.g, e).unwrap();
                graph_set_edge_weight(&mut self.g, e, weight.saturating_add(ratio));
                proof {
                    let m0 = old(self)@;
                    let m1 = self@;
                    assert forall|i: int, j: int| 0 <= i < j < m1.edges.len() implies !joins(
                        #[trigger] m1.edges[i],
                        (#[trigger] m1.edges[j]).a,
                        m1.edges[j].b,
                    ) by {
                        assert(m1.edges[i].a == m0.edges[i].a && m1.edges[i].b == m0.edges[i].b);
                        assert(m1.edges[j].a == m0.edges[j].a && m1.edges[j].b == m0.edges[j].b);
                    }
                    assert forall|i: int| 0 <= i < m1.edges.len() implies (#[trigger] m1.edges[i]).a
                        < m1.nodes.len() && m1.edges[i].b < m1.nodes.len() by {
                        assert(m1.edges[i].a == m0.edges[i].a && m1.edges[i].b == m0.edges[i].b);
                    }
                }
            }
        }
    }
}

/// The symbols of `symbols` that are of the kind `kind`, in their order.
pub fn symbols_of_kind(symbols: &Vec<Symbol>, kind: SymbolKind) -> (r: Vec<Symbol>)
    ensures
        r.deep_view() == of_kind(symbols.deep_view(), kind),
{
    let mut out: Vec<Symbol> = Vec::new();
    let mut i: usize = 0;
    while i < symbols.len()
        invariant
            i <= symbols.len(),
            out.deep_view() == of_kind(symbols.deep_view().take(i as int), kind),
        decreases symbols.len() - i,
    {
        proof {
            assert(symbols.deep_view().take(i + 1).drop_last() =~= symbols.deep_view().take(
                i as int,
            ));
        }
        let ghost before = out.deep_view();
        if symbols[i].kind == kind {
            out.push(symbols[i].clone());
            assert(out.deep_view() =~= before.push(symbols[i as int]@));
        }
        i += 1;
    }
    assert(symbols.deep_view().take(symbols.len() as int) =~= symbols.deep_view());
    out
}

// Read API
impl SymbolGraph {
    fn neighbor_symbols(&self, idx: usize) -> (r: Vec<(Symbol, usize)>)
        requires
            self.wf(),
            idx < self@.nodes.len(),
        ensures
            r.deep_view() == self@.neighbor_symbols(idx),
    {
        let hits = graph_edges_of(&self.g, idx);
        proof {
            lemma_incident_in_range(self@.edges, idx, self@.nodes.len());
        }
        let mut out: Vec<(Symbol, usize)> = Vec::new();
        let mut i: usize = 0;
        while i < hits.len()
            invariant
                self.wf(),
                i <= hits.len(),
                hits@ == incident(self@.edges, idx),
                forall|k: int| 0 <= k < hits@.len() ==> (#[trigger] hits@[k]).0 < self@.nodes.len(),
                out.deep_view() == symbols_among(self@.nodes, hits@.take(i as int)),
            decreases hits.len() - i,
        {
            proof {
                assert(hits@.take(i + 1).drop_last() =~= hits@.take(i as int));
            }
            let ghost before = out.deep_view();
            let target = hits[i].0;
            let weight = hits[i].1;
            assert(hits@[i as int].0 < self@.nodes.len());
            if let Some(symbol) = graph_node(&self.g, target).get_symbol() {
                out.push((symbol, weight));
                assert(out.deep_view() =~= before.push((symbol@, weight)));
            }
            i += 1;
        }
        assert(hits@.take(hits.len() as int) =~= hits@);
        out
    }

    /// The symbols linked to the file `file_name`; none for a file that is
    /// not in the graph.
    pub fn list_symbols(&self, file_name: &String) -> (r: Vec<Symbol>)
        requires
            self.wf(),
        ensures
            r.deep_view() == self@.list_symbols(file_name@),
    {
        let file_index = match self.file_mapping.get(file_name) {
            Some(index) => index,
            None => {
                return Vec::new();
            },
        };
        let pairs = self.neighbor_symbols(file_index);
        let mut out: Vec<Symbol> = Vec::new();
        let mut i: usize = 0;
        while i < pairs.len()
            invariant
                i <= pairs.len(),
                out.len() == i,
                forall|k: int| 0 <= k < i ==> (#[trigger] out[k])@ == pairs[k].0@,
            decreases pairs.len() - i,
        {
            out.push(pairs[i].0.clone());
            i += 1;
        }
        assert(out.deep_view() =~= symbols_of(pairs.deep_view()));
        out
    }

    /// The definitions linked to the file `file_name`.
    pub fn list_definitions(&self, file_name: &String) -> (r: Vec<Symbol>)
        requires
            self.wf(),
        ensures
            r.deep_view() == self@.list_definitions(file_name@),
    {
        symbols_of_kind(&self.list_symbols(file_name), SymbolKind::DEF)
    }

    /// The references linked to the file `file_name`.
    pub fn list_references(&self, file_name: &String) -> (r: Vec<Symbol>)
        requires
            self.wf(),
        ensures
            r.deep_view() == self@.list_references(file_name@),
    {
        symbols_of_kind(&self.list_symbols(file_name), SymbolKind::REF)
    }

    /// The symbols linked to the symbol with the identifier `symbol_id`,
    /// whatever their kind, each with the weight of the link; none for an
    /// identifier that is not in the graph.
    pub fn list_references_by_definition(&self, symbol_id: &String) -> (r: Vec<(Symbol, usize)>)
        requires
            self.wf(),
        ensures
            r.deep_view() == self@.symbol_neighbors(symbol_id@),
    {
        match self.symbol_mapping.get(symbol_id) {
            Some(def_index) => self.neighbor_symbols(def_index),
            None => Vec::new(),
        }
    }

    /// The symbols linked to the symbol with the identifier `symbol_id`,
    /// whatever their kind, each with the weight of the link; none for an
    /// identifier that is not in the graph.
    pub fn list_definitions_by_reference(&self, symbol_id: &String) -> (r: Vec<(Symbol, usize)>)
        requires
            self.wf(),
        ensures
            r.deep_view() == self@.symbol_neighbors(symbol_id@),
    {
        match self.symbol_mapping.get(symbol_id) {
            Some(ref_index) => self.neighbor_symbols(ref_index),
            None => Vec::new(),
        }
    }

    /// The symbol with the identifier `id`, if it is a node of the graph.
    pub fn symbol(&self, id: &String) -> (r: Option<Symbol>)
        requires
            self.wf(),
        ensures
            r is Some <==> self@.symbols.contains_key(id@),
            r is Some ==> r.unwrap()@.id() == id@ && self@.nodes[self@.symbols[id@] as int].symbol
                == Some(r.unwrap()@),
    {
        match self.symbol_mapping.get(id) {
            Some(index) => graph_node(&self.g, index).get_symbol(),
            None => None,
        }
    }

    /// Whether the graph has a node for the file `file_name`.
    pub fn has_file(&self, file_name: &String) -> (r: bool)
        requires
            self.wf(),
        ensures
            r == self@.files.contains_key(file_name@),
    {
        self.file_mapping.contains_key(file_name)
    }

    /// Whether the symbols with the identifiers `a` and `b` are nodes of the
    /// graph with an edge between them.
    pub fn symbols_linked(&self, a: &String, b: &String) -> (r: bool)
        requires
            self.wf(),
        ensures
            r == self@.symbols_linked(a@, b@),
    {
        match (self.symbol_mapping.get(a), self.symbol_mapping.get(b)) {
            (Some(x), Some(y)) => graph_contains_edge(&self.g, x, y),
            _ => false,
        }
    }

    /// The pairs of a definition of `src_file` and a reference of `dst_file`
    /// that an edge joins.
    pub fn pairs_between_files(&self, src_file: &String, dst_file: &String) -> (r: Vec<DefRefPair>)
        requires
            self.wf(),
        ensures
            r.deep_view() == self@.pairs_between_files(src_file@, dst_file@),
    {
        let defs = self.list_definitions(src_file);
        let refs = self.list_references(dst_file);
        let mut pairs: Vec<DefRefPair> = Vec::new();
        let mut i: usize = 0;
        while i < defs.len()
            invariant
                self.wf(),
                i <= defs.len(),
                pairs.deep_view() == self@.pairs_among(defs.deep_view().take(i as int), refs.deep_view()),
            decreases defs.len() - i,
        {
            let def_id = defs[i].id();
            let ghost base = pairs.deep_view();
            let mut j: usize = 0;
            while j < refs.len()
                invariant
                    self.wf(),
                    i < defs.len(),
                    j <= refs.len(),
                    def_id@ == defs[i as int]@.id(),
                    pairs.deep_view() == base + self@.pairs_with(
                        defs[i as int]@,
                        refs.deep_view().take(j as int),
                    ),
                decreases refs.len() - j,
            {
                proof {
                    assert(refs.deep_view().take(j + 1).drop_last() =~= refs.deep_view().take(
                        j as int,
                    ));
                }
                let ghost before = pairs.deep_view();
                if self.symbols_linked(&def_id, &refs[j].id()) {
                    pairs.push(
                        DefRefPair { src_symbol: defs[i].clone(), dst_symbol: refs[j].clone() },
                    );
                    assert(pairs.deep_view() =~= before.push((defs[i as int]@, refs[j as int]@)));
                }
                j += 1;
            }
            proof {
                assert(refs.deep_view().take(refs.len() as int) =~= refs.deep_view());
                assert(defs.deep_view().take(i + 1).drop_last() =~= defs.deep_view().take(
                    i as int,
                ));
            }
            i += 1;
        }
        assert(defs.deep_view().take(defs.len() as int) =~= defs.deep_view());
        pairs
    }
}

/// In a well-formed graph the edge that joins two nodes is the only one.
pub proof fn lemma_one_edge(m: GraphModel, a: usize, b: usize, e: int)
    requires
        m.wf(),
        0 <= e < m.edges.len(),
        joins(m.edges[e], a, b),
    ensures
        m.linked(a, b),
        m.edge_between(a, b) == e,
{
    let c = m.edge_between(a, b);
    if c < e {
        assert(joins(m.edges[c], m.edges[e].a, m.edges[e].b));
    } else if e < c {
        assert(joins(m.edges[e], m.edges[c].a, m.edges[c].b));
    }
}

} // verus!

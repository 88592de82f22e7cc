//! The mathematical model of the symbol graph: what it holds and what each
//! operation and query means.

use crate::symbol::{NodeModel, SymbolKind, SymbolModel};
use crate::ungraph::{incident, joins, Link};
use vstd::prelude::*;

verus! {

/// The symbol graph as plain mathematics: nodes and edges in the order in
/// which they were added, and the two indices from file paths and symbol
/// identifiers to node positions.
pub struct GraphModel {
    pub nodes: Seq<NodeModel>,
    pub edges: Seq<Link>,
    pub files: Map<Seq<char>, usize>,
    pub symbols: Map<Seq<char>, usize>,
}

/// The node that stands for the file at `path`.
pub open spec fn file_node(path: Seq<char>) -> NodeModel {
    NodeModel { id: path, symbol: None }
}

/// The node that stands for the symbol `s`.
pub open spec fn symbol_node(s: SymbolModel) -> NodeModel {
    NodeModel { id: s.id(), symbol: Some(s) }
}

/// A weight after `delta` was added to it; weights stop at `usize::MAX`.
pub open spec fn raised(weight: usize, delta: usize) -> usize {
    if weight + delta > usize::MAX {
        usize::MAX
    } else {
        (weight + delta) as usize
    }
}

/// The symbols among the nodes that `hits` names, each with the weight that
/// came with it, in the order of `hits`.
pub open spec fn symbols_among(nodes: Seq<NodeModel>, hits: Seq<(usize, usize)>) -> Seq<
    (SymbolModel, usize),
>
    decreases hits.len(),
{
    if hits.len() == 0 {
        Seq::empty()
    } else {
        let rest = symbols_among(nodes, hits.drop_last());
        let hit = hits.last();
        if hit.0 < nodes.len() && nodes[hit.0 as int].symbol is Some {
            rest.push((nodes[hit.0 as int].symbol.unwrap(), hit.1))
        } else {
            rest
        }
    }
}

/// The symbols of `symbols` that are of the kind `kind`, in their order.
pub open spec fn of_kind(symbols: Seq<SymbolModel>, kind: SymbolKind) -> Seq<SymbolModel>
    decreases symbols.len(),
{
    if symbols.len() == 0 {
        Seq::empty()
    } else if symbols.last().kind == kind {
        of_kind(symbols.drop_last(), kind).push(symbols.last())
    } else {
        of_kind(symbols.drop_last(), kind)
    }
}

/// The symbols of a list of symbols with weights.
pub open spec fn symbols_of(pairs: Seq<(SymbolModel, usize)>) -> Seq<SymbolModel> {
    Seq::new(pairs.len(), |i: int| pairs[i].0)
}

impl GraphModel {
    /// The graph without nodes.
    pub open spec fn empty() -> GraphModel {
        GraphModel {
            nodes: Seq::empty(),
            edges: Seq::empty(),
            files: Map::empty(),
            symbols: Map::empty(),
        }
    }

    /// The indices point at the nodes they name, edges join nodes of the
    /// graph, no two edges join the same pair of nodes, and the counts fit
    /// the store's 32-bit indices.
    pub open spec fn wf(self) -> bool {
        &&& self.nodes.len() <= u32::MAX
        &&& self.edges.len() <= u32::MAX
        &&& forall|p: Seq<char>| #[trigger]
            self.files.contains_key(p) ==> self.files[p] < self.nodes.len()
                && self.nodes[self.files[p] as int] == file_node(p)
        &&& forall|id: Seq<char>| #[trigger]
            self.symbols.contains_key(id) ==> self.symbols[id] < self.nodes.len()
                && self.nodes[self.symbols[id] as int].id == id
                && self.nodes[self.symbols[id] as int].symbol is Some
                && self.nodes[self.symbols[id] as int].symbol.unwrap().id() == id
        &&& forall|i: int|
            0 <= i < self.edges.len() ==> (#[trigger] self.edges[i]).a < self.nodes.len()
                && self.edges[i].b < self.nodes.len()
        &&& forall|i: int, j: int|
            0 <= i < j < self.edges.len() ==> !joins(
                #[trigger] self.edges[i],
                (#[trigger] self.edges[j]).a,
                self.edges[j].b,
            )
    }

    /// Whether an edge joins the nodes at `a` and `b`.
    pub open spec fn linked(self, a: usize, b: usize) -> bool {
        exists|i: int| 0 <= i < self.edges.len() && joins(#[trigger] self.edges[i], a, b)
    }

    /// The position of an edge that joins `a` and `b`.
    pub open spec fn edge_between(self, a: usize, b: usize) -> int {
        choose|i: int| 0 <= i < self.edges.len() && joins(#[trigger] self.edges[i], a, b)
    }

    /// Whether the symbols with the identifiers `a` and `b` are both nodes
    /// and an edge joins them.
    pub open spec fn symbols_linked(self, a: Seq<char>, b: Seq<char>) -> bool {
        self.symbols.contains_key(a) && self.symbols.contains_key(b) && self.linked(
            self.symbols[a],
            self.symbols[b],
        )
    }

    /// Whether the store has room for another node.
    pub open spec fn has_node_room(self) -> bool {
        self.nodes.len() < u32::MAX
    }

    /// Whether the store has room for another edge.
    pub open spec fn has_edge_room(self) -> bool {
        self.edges.len() < u32::MAX
    }

    /// Adding a file: a new file node, unless the path is a node already or
    /// the store is full.
    pub open spec fn add_file(self, path: Seq<char>) -> GraphModel {
        if self.files.contains_key(path) || !self.has_node_room() {
            self
        } else {
            GraphModel {
                nodes: self.nodes.push(file_node(path)),
                files: self.files.insert(path, self.nodes.len() as usize),
                ..self
            }
        }
    }

    /// Adding a symbol: a new symbol node, unless its identifier is a node
    /// already or the store is full.
    pub open spec fn add_symbol(self, s: SymbolModel) -> GraphModel {
        if self.symbols.contains_key(s.id()) || !self.has_node_room() {
            self
        } else {
            GraphModel {
                nodes: self.nodes.push(symbol_node(s)),
                symbols: self.symbols.insert(s.id(), self.nodes.len() as usize),
                ..self
            }
        }
    }

    /// Joining two nodes: a new edge of weight zero, unless an edge joins
    /// them already or the store is full.
    pub open spec fn link(self, a: usize, b: usize) -> GraphModel {
        if self.linked(a, b) || !self.has_edge_room() {
            self
        } else {
            GraphModel { edges: self.edges.push(Link { a, b, weight: 0 }), ..self }
        }
    }

    /// Linking a file to a symbol; nothing happens unless both are nodes.
    pub open spec fn link_file_to_symbol(self, path: Seq<char>, id: Seq<char>) -> GraphModel {
        if self.files.contains_key(path) && self.symbols.contains_key(id) {
            self.link(self.files[path], self.symbols[id])
        } else {
            self
        }
    }

    /// Linking two symbols; nothing happens unless both are nodes.
    pub open spec fn link_symbol_to_symbol(self, a: Seq<char>, b: Seq<char>) -> GraphModel {
        if self.symbols.contains_key(a) && self.symbols.contains_key(b) {
            self.link(self.symbols[a], self.symbols[b])
        } else {
            self
        }
    }

    /// Raising the weight of the edge between two symbols by `delta`;
    /// nothing happens unless such an edge exists.
    pub open spec fn enhance_symbol_to_symbol(
        self,
        a: Seq<char>,
        b: Seq<char>,
        delta: usize,
    ) -> GraphModel {
        if self.symbols_linked(a, b) {
            let e = self.edge_between(self.symbols[a], self.symbols[b]);
            GraphModel {
                edges: self.edges.update(
                    e,
                    Link { weight: raised(self.edges[e].weight, delta), ..self.edges[e] },
                ),
                ..self
            }
        } else {
            self
        }
    }

    /// The symbols at the other end of the edges at node `a`, each with the
    /// edge's weight, in the order in which the store walks the edges.
    pub open spec fn neighbor_symbols(self, a: usize) -> Seq<(SymbolModel, usize)> {
        symbols_among(self.nodes, incident(self.edges, a))
    }

    /// The symbols linked to the file at `path`.
    pub open spec fn list_symbols(self, path: Seq<char>) -> Seq<SymbolModel> {
        if self.files.contains_key(path) {
            symbols_of(self.neighbor_symbols(self.files[path]))
        } else {
            Seq::empty()
        }
    }

    /// The definitions linked to the file at `path`.
    pub open spec fn list_definitions(self, path: Seq<char>) -> Seq<SymbolModel> {
        of_kind(self.list_symbols(path), SymbolKind::DEF)
    }

    /// The references linked to the file at `path`.
    pub open spec fn list_references(self, path: Seq<char>) -> Seq<SymbolModel> {
        of_kind(self.list_symbols(path), SymbolKind::REF)
    }

    /// The symbols linked to the symbol with the identifier `id`, each with
    /// the weight of the link.
    pub open spec fn symbol_neighbors(self, id: Seq<char>) -> Seq<(SymbolModel, usize)> {
        if self.symbols.contains_key(id) {
            self.neighbor_symbols(self.symbols[id])
        } else {
            Seq::empty()
        }
    }

    /// The pairs of `d` and a symbol of `refs` to which `d` is linked, in the
    /// order of `refs`.
    pub open spec fn pairs_with(self, d: SymbolModel, refs: Seq<SymbolModel>) -> Seq<
        (SymbolModel, SymbolModel),
    >
        decreases refs.len(),
    {
        if refs.len() == 0 {
            Seq::empty()
        } else if self.symbols_linked(d.id(), refs.last().id()) {
            self.pairs_with(d, refs.drop_last()).push((d, refs.last()))
        } else {
            self.pairs_with(d, refs.drop_last())
        }
    }

    /// The linked pairs of a symbol of `defs` and a symbol of `refs`, those
    /// of the first symbol of `defs` first.
    pub open spec fn pairs_among(self, defs: Seq<SymbolModel>, refs: Seq<SymbolModel>) -> Seq<
        (SymbolModel, SymbolModel),
    >
        decreases defs.len(),
    {
        if defs.len() == 0 {
            Seq::empty()
        } else {
            self.pairs_among(defs.drop_last(), refs) + self.pairs_with(defs.last(), refs)
        }
    }

    /// The linked pairs of a definition of `src` and a reference of `dst`.
    pub open spec fn pairs_between_files(self, src: Seq<char>, dst: Seq<char>) -> Seq<
        (SymbolModel, SymbolModel),
    > {
        self.pairs_among(self.list_definitions(src), self.list_references(dst))
    }
}

} // verus!

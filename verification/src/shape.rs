//! The shape of a built graph: every edge joins a file to a symbol, or a
//! reference to a definition of the same fully-qualified name.

use crate::builder::{
    all_links, bound, built, context_links, fallen_back, fallen_back_all, linked_among,
    linked_to_all, reference_links, seeded, seeded_with, with_fallbacks, BindingModel,
};
use crate::graph::{all_symbols, pointed, FileContextModel};
use crate::history::HistoryModel;
use crate::laws::{lemma_id_injective, lemma_links_keep_names};
use crate::model::{file_node, symbol_node, symbols_among, GraphModel};
use crate::symbol::{SymbolKind, SymbolModel};
use crate::table::{lemma_tabled, row_of, singles, tabled};
use crate::ungraph::{edges_from, edges_to, incident, joins, Link};
use crate::weight::Ratio;
use vstd::prelude::*;

verus! {

/// Whether one of two symbols is a reference and the other a definition of
/// the same name.
pub open spec fn binds(a: SymbolModel, b: SymbolModel) -> bool {
    a.name == b.name && ((a.kind == SymbolKind::REF && b.kind == SymbolKind::DEF) || (a.kind
        == SymbolKind::DEF && b.kind == SymbolKind::REF))
}

/// Whether an edge joins a file to a symbol, or a reference to a
/// definition of its name.
pub open spec fn edge_is_sound(m: GraphModel, e: Link) -> bool {
    let x = m.nodes[e.a as int];
    let y = m.nodes[e.b as int];
    (x.symbol is None && y.symbol is Some) || (x.symbol is Some && y.symbol is Some && binds(
        x.symbol.unwrap(),
        y.symbol.unwrap(),
    ))
}

/// Whether a graph is well-formed and each of its edges is sound.
pub open spec fn sound(m: GraphModel) -> bool {
    &&& m.wf()
    &&& forall|i: int| 0 <= i < m.edges.len() ==> edge_is_sound(m, #[trigger] m.edges[i])
}

/// The graph without nodes is sound.
pub proof fn lemma_empty_sound()
    ensures
        sound(GraphModel::empty()),
{
}

/// Adding a file keeps a graph sound.
pub proof fn lemma_add_file_sound(m: GraphModel, path: Seq<char>)
    requires
        sound(m),
    ensures
        sound(m.add_file(path)),
{
    let n = m.add_file(path);
    if !m.files.contains_key(path) && m.has_node_room() {
        assert forall|p: Seq<char>| #[trigger] n.files.contains_key(p) implies n.files[p]
            < n.nodes.len() && n.nodes[n.files[p] as int] == file_node(p) by {
            if p != path {
                assert(m.files.contains_key(p));
            }
        }
        assert forall|id: Seq<char>| #[trigger] n.symbols.contains_key(id) implies n.symbols[id]
            < n.nodes.len() && n.nodes[n.symbols[id] as int].id == id
            && n.nodes[n.symbols[id] as int].symbol is Some
            && n.nodes[n.symbols[id] as int].symbol.unwrap().id() == id by {
            assert(m.symbols.contains_key(id));
        }
        assert forall|i: int| 0 <= i < n.edges.len() implies edge_is_sound(
            n,
            #[trigger] n.edges[i],
        ) by {
            assert(edge_is_sound(m, m.edges[i]));
        }
    }
}

/// Adding a symbol keeps a graph sound.
pub proof fn lemma_add_symbol_sound(m: GraphModel, s: SymbolModel)
    requires
        sound(m),
    ensures
        sound(m.add_symbol(s)),
{
    let n = m.add_symbol(s);
    if !m.symbols.contains_key(s.id()) && m.has_node_room() {
        assert(n.nodes.last() == symbol_node(s));
        assert forall|p: Seq<char>| #[trigger] n.files.contains_key(p) implies n.files[p]
            < n.nodes.len() && n.nodes[n.files[p] as int] == file_node(p) by {
            assert(m.files.contains_key(p));
        }
        assert forall|id: Seq<char>| #[trigger] n.symbols.contains_key(id) implies n.symbols[id]
            < n.nodes.len() && n.nodes[n.symbols[id] as int].id == id
            && n.nodes[n.symbols[id] as int].symbol is Some
            && n.nodes[n.symbols[id] as int].symbol.unwrap().id() == id by {
            if id != s.id() {
                assert(m.symbols.contains_key(id));
            }
        }
        assert forall|i: int| 0 <= i < n.edges.len() implies edge_is_sound(
            n,
            #[trigger] n.edges[i],
        ) by {
            assert(edge_is_sound(m, m.edges[i]));
        }
    }
}

/// Joining two nodes with a sound edge keeps a graph sound.
pub proof fn lemma_link_sound(m: GraphModel, a: usize, b: usize)
    requires
        sound(m),
        a < m.nodes.len(),
        b < m.nodes.len(),
        edge_is_sound(m, Link { a, b, weight: 0 }),
    ensures
        sound(m.link(a, b)),
{
    let n = m.link(a, b);
    if !m.linked(a, b) && m.has_edge_room() {
        assert forall|i: int, j: int| 0 <= i < j < n.edges.len() implies !joins(
            #[trigger] n.edges[i],
            (#[trigger] n.edges[j]).a,
            n.edges[j].b,
        ) by {
            assert(n.edges[i] == m.edges[i]);
            if j < m.edges.len() {
                assert(n.edges[j] == m.edges[j]);
            }
        }
        assert forall|i: int| 0 <= i < n.edges.len() implies edge_is_sound(
            n,
            #[trigger] n.edges[i],
        ) by {
            if i < m.edges.len() {
                assert(edge_is_sound(m, m.edges[i]));
            }
        }
    }
}

/// Linking a file to a symbol keeps a graph sound.
pub proof fn lemma_link_file_sound(m: GraphModel, path: Seq<char>, id: Seq<char>)
    requires
        sound(m),
    ensures
        sound(m.link_file_to_symbol(path, id)),
{
    if m.files.contains_key(path) && m.symbols.contains_key(id) {
        lemma_link_sound(m, m.files[path], m.symbols[id]);
    }
}

/// Linking a reference and a definition of the same name keeps a graph
/// sound.
pub proof fn lemma_link_symbols_sound(m: GraphModel, a: SymbolModel, b: SymbolModel)
    requires
        sound(m),
        binds(a, b),
    ensures
        sound(m.link_symbol_to_symbol(a.id(), b.id())),
{
    if m.symbols.contains_key(a.id()) && m.symbols.contains_key(b.id()) {
        let x = m.nodes[m.symbols[a.id()] as int].symbol.unwrap();
        let y = m.nodes[m.symbols[b.id()] as int].symbol.unwrap();
        lemma_id_injective(x, a);
        lemma_id_injective(y, b);
        lemma_link_sound(m, m.symbols[a.id()], m.symbols[b.id()]);
    }
}

/// Raising a weight keeps a graph sound.
pub proof fn lemma_enhance_sound(m: GraphModel, a: Seq<char>, b: Seq<char>, delta: usize)
    requires
        sound(m),
    ensures
        sound(m.enhance_symbol_to_symbol(a, b, delta)),
{
    let n = m.enhance_symbol_to_symbol(a, b, delta);
    if m.symbols_linked(a, b) {
        let e = m.edge_between(m.symbols[a], m.symbols[b]);
        assert forall|i: int| 0 <= i < n.edges.len() implies (#[trigger] n.edges[i]).a
            == m.edges[i].a && n.edges[i].b == m.edges[i].b by {}
        assert forall|i: int, j: int| 0 <= i < j < n.edges.len() implies !joins(
            #[trigger] n.edges[i],
            (#[trigger] n.edges[j]).a,
            n.edges[j].b,
        ) by {
            assert(n.edges[i].a == m.edges[i].a && n.edges[i].b == m.edges[i].b);
            assert(n.edges[j].a == m.edges[j].a && n.edges[j].b == m.edges[j].b);
            assert(!joins(m.edges[i], m.edges[j].a, m.edges[j].b));
        }
        assert forall|i: int| 0 <= i < n.edges.len() implies edge_is_sound(
            n,
            #[trigger] n.edges[i],
        ) by {
            assert(n.edges[i].a == m.edges[i].a && n.edges[i].b == m.edges[i].b);
            assert(edge_is_sound(m, m.edges[i]));
        }
        assert forall|i: int| 0 <= i < n.edges.len() implies (#[trigger] n.edges[i]).a
            < n.nodes.len() && n.edges[i].b < n.nodes.len() by {
            assert(n.edges[i].a == m.edges[i].a && n.edges[i].b == m.edges[i].b);
        }
    }
}

/// Seeding a file's symbols keeps a graph sound.
pub proof fn lemma_seeded_with_sound(m: GraphModel, path: Seq<char>, symbols: Seq<SymbolModel>)
    requires
        sound(m),
    ensures
        sound(seeded_with(m, path, symbols)),
    decreases symbols.len(),
{
    if symbols.len() > 0 {
        lemma_seeded_with_sound(m, path, symbols.drop_last());
        let before = seeded_with(m, path, symbols.drop_last());
        lemma_add_symbol_sound(before, symbols.last());
        lemma_link_file_sound(before.add_symbol(symbols.last()), path, symbols.last().id());
    }
}

/// Seeding keeps a graph sound.
pub proof fn lemma_seeded_sound(m: GraphModel, contexts: Seq<FileContextModel>)
    requires
        sound(m),
    ensures
        sound(seeded(m, contexts)),
    decreases contexts.len(),
{
    if contexts.len() > 0 {
        lemma_seeded_sound(m, contexts.drop_last());
        let before = seeded(m, contexts.drop_last());
        lemma_add_file_sound(before, contexts.last().path);
        lemma_seeded_with_sound(
            before.add_file(contexts.last().path),
            contexts.last().path,
            contexts.last().symbols,
        );
    }
}

/// Making links that each bind a reference to a definition of its name
/// keeps a graph sound.
pub proof fn lemma_bound_sound(m: GraphModel, plan: Seq<BindingModel>)
    requires
        sound(m),
        forall|k: int| 0 <= k < plan.len() ==> binds((#[trigger] plan[k]).reference, plan[k].definition),
    ensures
        sound(bound(m, plan)),
    decreases plan.len(),
{
    if plan.len() > 0 {
        assert forall|k: int| 0 <= k < plan.drop_last().len() implies binds(
            (#[trigger] plan.drop_last()[k]).reference,
            plan.drop_last()[k].definition,
        ) by {
            assert(plan.drop_last()[k] == plan[k]);
        }
        lemma_bound_sound(m, plan.drop_last());
        let before = bound(m, plan.drop_last());
        let b = plan[plan.len() - 1];
        assert(plan.last() == b);
        lemma_link_symbols_sound(before, b.reference, b.definition);
        lemma_enhance_sound(
            before.link_symbol_to_symbol(b.reference.id(), b.definition.id()),
            b.reference.id(),
            b.definition.id(),
            b.score,
        );
    }
}

/// Every link of a file's references binds a reference to a definition of
/// its name.
pub proof fn lemma_context_links_bind(
    h: HistoryModel,
    m: GraphModel,
    all: Seq<SymbolModel>,
    path: Seq<char>,
    symbols: Seq<SymbolModel>,
    total: usize,
    ratio: Ratio,
    def_limit: usize,
)
    ensures
        forall|k: int|
            0 <= k < context_links(
                h,
                m,
                tabled(all, SymbolKind::DEF),
                path,
                symbols,
                total,
                ratio,
                def_limit,
            ).len() ==> binds(
                (#[trigger] context_links(
                    h,
                    m,
                    tabled(all, SymbolKind::DEF),
                    path,
                    symbols,
                    total,
                    ratio,
                    def_limit,
                )[k]).reference,
                context_links(
                    h,
                    m,
                    tabled(all, SymbolKind::DEF),
                    path,
                    symbols,
                    total,
                    ratio,
                    def_limit,
                )[k].definition,
            ),
    decreases symbols.len(),
{
    let defs = tabled(all, SymbolKind::DEF);
    if symbols.len() > 0 {
        lemma_context_links_bind(h, m, all, path, symbols.drop_last(), total, ratio, def_limit);
        let rest = context_links(h, m, defs, path, symbols.drop_last(), total, ratio, def_limit);
        let links = context_links(h, m, defs, path, symbols, total, ratio, def_limit);
        if symbols.last().kind == SymbolKind::REF {
            let r = symbols.last();
            let mine = reference_links(h, m, defs, path, r, total, ratio, def_limit);
            lemma_links_keep_names(h, m, all, path, r, total, ratio, def_limit);
            assert forall|k: int| 0 <= k < links.len() implies binds(
                (#[trigger] links[k]).reference,
                links[k].definition,
            ) by {
                if k < rest.len() {
                    assert(links[k] == rest[k]);
                } else {
                    assert(links[k] == mine[k - rest.len()]);
                }
            }
        }
    }
}

/// Every link of the references of all files binds a reference to a
/// definition of its name.
pub proof fn lemma_all_links_bind(
    h: HistoryModel,
    m: GraphModel,
    all: Seq<SymbolModel>,
    contexts: Seq<FileContextModel>,
    total: usize,
    ratio: Ratio,
    def_limit: usize,
)
    ensures
        forall|k: int|
            0 <= k < all_links(h, m, tabled(all, SymbolKind::DEF), contexts, total, ratio, def_limit).len()
                ==> binds(
                (#[trigger] all_links(
                    h,
                    m,
                    tabled(all, SymbolKind::DEF),
                    contexts,
                    total,
                    ratio,
                    def_limit,
                )[k]).reference,
                all_links(h, m, tabled(all, SymbolKind::DEF), contexts, total, ratio, def_limit)[k].definition,
            ),
    decreases contexts.len(),
{
    let defs = tabled(all, SymbolKind::DEF);
    if contexts.len() > 0 {
        lemma_all_links_bind(h, m, all, contexts.drop_last(), total, ratio, def_limit);
        lemma_context_links_bind(
            h,
            m,
            all,
            contexts.last().path,
            contexts.last().symbols,
            total,
            ratio,
            def_limit,
        );
        let rest = all_links(h, m, defs, contexts.drop_last(), total, ratio, def_limit);
        let mine = context_links(
            h,
            m,
            defs,
            contexts.last().path,
            contexts.last().symbols,
            total,
            ratio,
            def_limit,
        );
        let links = all_links(h, m, defs, contexts, total, ratio, def_limit);
        assert forall|k: int| 0 <= k < links.len() implies binds(
            (#[trigger] links[k]).reference,
            links[k].definition,
        ) by {
            if k < rest.len() {
                assert(links[k] == rest[k]);
            } else {
                assert(links[k] == mine[k - rest.len()]);
            }
        }
    }
}

/// Linking a definition to references of its name keeps a graph sound.
pub proof fn lemma_linked_to_all_sound(m: GraphModel, d: SymbolModel, refs: Seq<SymbolModel>)
    requires
        sound(m),
        forall|k: int| 0 <= k < refs.len() ==> binds(d, #[trigger] refs[k]),
    ensures
        sound(linked_to_all(m, d.id(), refs)),
    decreases refs.len(),
{
    if refs.len() > 0 {
        assert forall|k: int| 0 <= k < refs.drop_last().len() implies binds(
            d,
            #[trigger] refs.drop_last()[k],
        ) by {
            assert(refs.drop_last()[k] == refs[k]);
        }
        lemma_linked_to_all_sound(m, d, refs.drop_last());
        assert(refs.last() == refs[refs.len() - 1]);
        lemma_link_symbols_sound(linked_to_all(m, d.id(), refs.drop_last()), d, refs.last());
    }
}

/// Linking definitions to references of their name keeps a graph sound.
pub proof fn lemma_linked_among_sound(m: GraphModel, defs: Seq<SymbolModel>, refs: Seq<SymbolModel>)
    requires
        sound(m),
        forall|i: int, k: int|
            0 <= i < defs.len() && 0 <= k < refs.len() ==> binds(
                #[trigger] defs[i],
                #[trigger] refs[k],
            ),
    ensures
        sound(linked_among(m, defs, refs)),
    decreases defs.len(),
{
    if defs.len() > 0 {
        assert forall|i: int, k: int|
            0 <= i < defs.drop_last().len() && 0 <= k < refs.len() implies binds(
            #[trigger] defs.drop_last()[i],
            #[trigger] refs[k],
        ) by {
            assert(defs.drop_last()[i] == defs[i]);
        }
        lemma_linked_among_sound(m, defs.drop_last(), refs);
        assert(defs.last() == defs[defs.len() - 1]);
        lemma_linked_to_all_sound(linked_among(m, defs.drop_last(), refs), defs.last(), refs);
    }
}

/// The fallback for one symbol keeps a graph sound.
pub proof fn lemma_fallen_back_sound(m: GraphModel, s: SymbolModel, all: Seq<SymbolModel>)
    requires
        sound(m),
    ensures
        sound(
            fallen_back(
                m,
                s,
                singles(tabled(all, SymbolKind::DEF)),
                tabled(all, SymbolKind::REF),
            ),
        ),
{
    let unique = singles(tabled(all, SymbolKind::DEF));
    let refs = tabled(all, SymbolKind::REF);
    lemma_tabled(all, SymbolKind::DEF);
    lemma_tabled(all, SymbolKind::REF);
    let ds = row_of(unique, s.name);
    let rs = row_of(refs, s.name);
    assert forall|i: int, k: int| 0 <= i < ds.len() && 0 <= k < rs.len() implies binds(
        #[trigger] ds[i],
        #[trigger] rs[k],
    ) by {
        assert(unique.contains_key(s.name));
        assert(tabled(all, SymbolKind::DEF).contains_key(s.name));
        assert(ds[i] == tabled(all, SymbolKind::DEF)[s.name][i]);
        assert(refs.contains_key(s.name));
        assert(rs[k] == refs[s.name][k]);
    }
    lemma_linked_among_sound(m, ds, rs);
}

/// The fallback for the symbols of one file keeps a graph sound.
pub proof fn lemma_fallen_back_all_sound(m: GraphModel, symbols: Seq<SymbolModel>, all: Seq<SymbolModel>)
    requires
        sound(m),
    ensures
        sound(
            fallen_back_all(
                m,
                symbols,
                singles(tabled(all, SymbolKind::DEF)),
                tabled(all, SymbolKind::REF),
            ),
        ),
    decreases symbols.len(),
{
    if symbols.len() > 0 {
        lemma_fallen_back_all_sound(m, symbols.drop_last(), all);
        lemma_fallen_back_sound(
            fallen_back_all(
                m,
                symbols.drop_last(),
                singles(tabled(all, SymbolKind::DEF)),
                tabled(all, SymbolKind::REF),
            ),
            symbols.last(),
            all,
        );
    }
}

/// The fallback for every file keeps a graph sound.
pub proof fn lemma_with_fallbacks_sound(
    m: GraphModel,
    contexts: Seq<FileContextModel>,
    all: Seq<SymbolModel>,
)
    requires
        sound(m),
    ensures
        sound(
            with_fallbacks(
                m,
                contexts,
                singles(tabled(all, SymbolKind::DEF)),
                tabled(all, SymbolKind::REF),
            ),
        ),
    decreases contexts.len(),
{
    if contexts.len() > 0 {
        lemma_with_fallbacks_sound(m, contexts.drop_last(), all);
        lemma_fallen_back_all_sound(
            with_fallbacks(
                m,
                contexts.drop_last(),
                singles(tabled(all, SymbolKind::DEF)),
                tabled(all, SymbolKind::REF),
            ),
            contexts.last().symbols,
            all,
        );
    }
}

/// A built graph is sound: each of its edges joins a file to a symbol, or
/// a reference to a definition that bears the same fully-qualified name.
pub proof fn lemma_built_sound(
    h: HistoryModel,
    contexts: Seq<FileContextModel>,
    total: usize,
    ratio: Ratio,
    def_limit: usize,
    symbol_len_limit: usize,
)
    ensures
        sound(built(h, contexts, total, ratio, def_limit, symbol_len_limit)),
{
    let all = all_symbols(contexts);
    let defs = tabled(all, SymbolKind::DEF);
    let refs = tabled(all, SymbolKind::REF);
    let kept = pointed(contexts, defs, refs, symbol_len_limit);
    lemma_empty_sound();
    lemma_seeded_sound(GraphModel::empty(), kept);
    let seeds = seeded(GraphModel::empty(), kept);
    lemma_all_links_bind(h, seeds, all, kept, total, ratio, def_limit);
    lemma_bound_sound(seeds, all_links(h, seeds, defs, kept, total, ratio, def_limit));
    lemma_with_fallbacks_sound(
        bound(seeds, all_links(h, seeds, defs, kept, total, ratio, def_limit)),
        kept,
        all,
    );
}

/// Whether every symbol of the graph is a symbol of one of the files.
pub open spec fn drawn_from(m: GraphModel, contexts: Seq<FileContextModel>) -> bool {
    forall|i: int|
        0 <= i < m.nodes.len() && (#[trigger] m.nodes[i]).symbol is Some ==> exists|c: int|
            0 <= c < contexts.len() && (#[trigger] contexts[c]).symbols.contains(
                m.nodes[i].symbol.unwrap(),
            )
}

/// Links change no node.
pub proof fn lemma_bound_nodes(m: GraphModel, plan: Seq<BindingModel>)
    ensures
        bound(m, plan).nodes == m.nodes,
    decreases plan.len(),
{
    if plan.len() > 0 {
        lemma_bound_nodes(m, plan.drop_last());
    }
}

proof fn lemma_linked_to_all_nodes(m: GraphModel, id: Seq<char>, refs: Seq<SymbolModel>)
    ensures
        linked_to_all(m, id, refs).nodes == m.nodes,
    decreases refs.len(),
{
    if refs.len() > 0 {
        lemma_linked_to_all_nodes(m, id, refs.drop_last());
    }
}

proof fn lemma_linked_among_nodes(m: GraphModel, defs: Seq<SymbolModel>, refs: Seq<SymbolModel>)
    ensures
        linked_among(m, defs, refs).nodes == m.nodes,
    decreases defs.len(),
{
    if defs.len() > 0 {
        lemma_linked_among_nodes(m, defs.drop_last(), refs);
        lemma_linked_to_all_nodes(linked_among(m, defs.drop_last(), refs), defs.last().id(), refs);
    }
}

proof fn lemma_fallen_back_all_nodes(
    m: GraphModel,
    symbols: Seq<SymbolModel>,
    unique: Map<Seq<char>, Seq<SymbolModel>>,
    refs: Map<Seq<char>, Seq<SymbolModel>>,
)
    ensures
        fallen_back_all(m, symbols, unique, refs).nodes == m.nodes,
    decreases symbols.len(),
{
    if symbols.len() > 0 {
        lemma_fallen_back_all_nodes(m, symbols.drop_last(), unique, refs);
        let before = fallen_back_all(m, symbols.drop_last(), unique, refs);
        lemma_linked_among_nodes(
            before,
            row_of(unique, symbols.last().name),
            row_of(refs, symbols.last().name),
        );
    }
}

/// The fallback changes no node.
pub proof fn lemma_with_fallbacks_nodes(
    m: GraphModel,
    contexts: Seq<FileContextModel>,
    unique: Map<Seq<char>, Seq<SymbolModel>>,
    refs: Map<Seq<char>, Seq<SymbolModel>>,
)
    ensures
        with_fallbacks(m, contexts, unique, refs).nodes == m.nodes,
    decreases contexts.len(),
{
    if contexts.len() > 0 {
        lemma_with_fallbacks_nodes(m, contexts.drop_last(), unique, refs);
        lemma_fallen_back_all_nodes(
            with_fallbacks(m, contexts.drop_last(), unique, refs),
            contexts.last().symbols,
            unique,
            refs,
        );
    }
}

proof fn lemma_seeded_with_drawn(
    m: GraphModel,
    path: Seq<char>,
    symbols: Seq<SymbolModel>,
    contexts: Seq<FileContextModel>,
    c: int,
)
    requires
        drawn_from(m, contexts),
        0 <= c < contexts.len(),
        forall|j: int| 0 <= j < symbols.len() ==> contexts[c].symbols.contains(#[trigger] symbols[j]),
    ensures
        drawn_from(seeded_with(m, path, symbols), contexts),
    decreases symbols.len(),
{
    if symbols.len() > 0 {
        let rest = symbols.drop_last();
        assert forall|j: int| 0 <= j < rest.len() implies contexts[c].symbols.contains(
            #[trigger] rest[j],
        ) by {
            assert(rest[j] == symbols[j]);
        }
        lemma_seeded_with_drawn(m, path, rest, contexts, c);
        let before = seeded_with(m, path, rest);
        let s = symbols[symbols.len() - 1];
        assert(symbols.last() == s);
        let added = before.add_symbol(s);
        assert forall|i: int| 0 <= i < added.nodes.len() && (#[trigger] added.nodes[i]).symbol is Some implies exists|
            k: int,
        |
            0 <= k < contexts.len() && (#[trigger] contexts[k]).symbols.contains(
                added.nodes[i].symbol.unwrap(),
            ) by {
            if i < before.nodes.len() {
                assert(added.nodes[i] == before.nodes[i]);
            } else {
                assert(added.nodes[i] == symbol_node(s));
                assert(contexts[c].symbols.contains(s));
            }
        }
        assert(added.link_file_to_symbol(path, s.id()).nodes == added.nodes);
    }
}

/// Seeding draws every symbol from the files it is given, and so from the
/// files before the filter for pointless symbols.
pub proof fn lemma_seeded_drawn(contexts: Seq<FileContextModel>, limit: usize, n: int)
    requires
        0 <= n <= contexts.len(),
    ensures
        drawn_from(
            seeded(
                GraphModel::empty(),
                pointed(
                    contexts,
                    tabled(all_symbols(contexts), SymbolKind::DEF),
                    tabled(all_symbols(contexts), SymbolKind::REF),
                    limit,
                ).take(n),
            ),
            contexts,
        ),
    decreases n,
{
    let defs = tabled(all_symbols(contexts), SymbolKind::DEF);
    let refs = tabled(all_symbols(contexts), SymbolKind::REF);
    let kept = pointed(contexts, defs, refs, limit);
    if n > 0 {
        lemma_seeded_drawn(contexts, limit, n - 1);
        assert(kept.take(n).drop_last() =~= kept.take(n - 1));
        let c = kept[n - 1];
        assert(kept.take(n).last() == c);
        let before = seeded(GraphModel::empty(), kept.take(n - 1));
        let with_file = before.add_file(c.path);
        assert forall|i: int| 0 <= i < with_file.nodes.len() && (
        #[trigger] with_file.nodes[i]).symbol is Some implies exists|k: int|
            0 <= k < contexts.len() && (#[trigger] contexts[k]).symbols.contains(
                with_file.nodes[i].symbol.unwrap(),
            ) by {
            if i < before.nodes.len() {
                assert(with_file.nodes[i] == before.nodes[i]);
            }
        }
        crate::laws::lemma_with_point(contexts[n - 1].symbols, defs, refs, limit);
        assert forall|j: int| 0 <= j < c.symbols.len() implies contexts[n - 1].symbols.contains(
            #[trigger] c.symbols[j],
        ) by {
            assert(c.symbols.contains(c.symbols[j]));
        }
        lemma_seeded_with_drawn(with_file, c.path, c.symbols, contexts, n - 1);
    }
}

/// Every symbol of a built graph is a symbol of one of the files that it
/// was built from.
pub proof fn lemma_built_drawn(
    h: HistoryModel,
    contexts: Seq<FileContextModel>,
    total: usize,
    ratio: Ratio,
    def_limit: usize,
    symbol_len_limit: usize,
)
    ensures
        drawn_from(built(h, contexts, total, ratio, def_limit, symbol_len_limit), contexts),
{
    let all = all_symbols(contexts);
    let defs = tabled(all, SymbolKind::DEF);
    let refs = tabled(all, SymbolKind::REF);
    let kept = pointed(contexts, defs, refs, symbol_len_limit);
    lemma_seeded_drawn(contexts, symbol_len_limit, contexts.len() as int);
    assert(kept.take(contexts.len() as int) =~= kept);
    let seeds = seeded(GraphModel::empty(), kept);
    let plan = all_links(h, seeds, defs, kept, total, ratio, def_limit);
    lemma_bound_nodes(seeds, plan);
    lemma_with_fallbacks_nodes(bound(seeds, plan), kept, singles(defs), refs);
}

/// Whether the symbol `s` was found in the file at `path`: one of the
/// files with that path has a symbol with the identifier of `s`.
pub open spec fn found_in(contexts: Seq<FileContextModel>, path: Seq<char>, s: SymbolModel) -> bool {
    exists|c: int, j: int|
        0 <= c < contexts.len() && 0 <= j < contexts[c].symbols.len() && (
        #[trigger] contexts[c]).path == path && (#[trigger] contexts[c].symbols[j]).id() == s.id()
}

/// Whether an edge at a file joins it to a symbol that was found in it.
pub open spec fn edge_is_placed(m: GraphModel, contexts: Seq<FileContextModel>, e: Link) -> bool {
    let x = m.nodes[e.a as int];
    let y = m.nodes[e.b as int];
    x.symbol is None && y.symbol is Some ==> found_in(contexts, x.id, y.symbol.unwrap())
}

/// Whether every file of the graph is linked only to symbols that were
/// found in it.
pub open spec fn placed(m: GraphModel, contexts: Seq<FileContextModel>) -> bool {
    forall|i: int| 0 <= i < m.edges.len() ==> edge_is_placed(m, contexts, #[trigger] m.edges[i])
}

proof fn lemma_add_node_placed(m: GraphModel, n: GraphModel, contexts: Seq<FileContextModel>)
    requires
        sound(m),
        placed(m, contexts),
        n.edges == m.edges,
        n.nodes.len() >= m.nodes.len(),
        forall|i: int| 0 <= i < m.nodes.len() ==> n.nodes[i] == m.nodes[i],
    ensures
        placed(n, contexts),
{
    assert forall|i: int| 0 <= i < n.edges.len() implies edge_is_placed(
        n,
        contexts,
        #[trigger] n.edges[i],
    ) by {
        assert(edge_is_placed(m, contexts, m.edges[i]));
    }
}

proof fn lemma_link_placed(m: GraphModel, contexts: Seq<FileContextModel>, a: usize, b: usize)
    requires
        sound(m),
        placed(m, contexts),
        edge_is_placed(m, contexts, Link { a, b, weight: 0 }),
    ensures
        placed(m.link(a, b), contexts),
{
    let n = m.link(a, b);
    assert forall|i: int| 0 <= i < n.edges.len() implies edge_is_placed(
        n,
        contexts,
        #[trigger] n.edges[i],
    ) by {
        if i < m.edges.len() {
            assert(edge_is_placed(m, contexts, m.edges[i]));
        }
    }
}

proof fn lemma_link_symbols_placed(
    m: GraphModel,
    contexts: Seq<FileContextModel>,
    a: Seq<char>,
    b: Seq<char>,
)
    requires
        sound(m),
        placed(m, contexts),
    ensures
        placed(m.link_symbol_to_symbol(a, b), contexts),
{
    if m.symbols.contains_key(a) && m.symbols.contains_key(b) {
        lemma_link_placed(m, contexts, m.symbols[a], m.symbols[b]);
    }
}

proof fn lemma_enhance_placed(
    m: GraphModel,
    contexts: Seq<FileContextModel>,
    a: Seq<char>,
    b: Seq<char>,
    delta: usize,
)
    requires
        sound(m),
        placed(m, contexts),
    ensures
        placed(m.enhance_symbol_to_symbol(a, b, delta), contexts),
{
    let n = m.enhance_symbol_to_symbol(a, b, delta);
    if m.symbols_linked(a, b) {
        let e = m.edge_between(m.symbols[a], m.symbols[b]);
        assert forall|i: int| 0 <= i < n.edges.len() implies edge_is_placed(
            n,
            contexts,
            #[trigger] n.edges[i],
        ) by {
            assert(n.edges[i].a == m.edges[i].a && n.edges[i].b == m.edges[i].b);
            assert(edge_is_placed(m, contexts, m.edges[i]));
        }
    }
}

proof fn lemma_seeded_with_placed(
    m: GraphModel,
    symbols: Seq<SymbolModel>,
    contexts: Seq<FileContextModel>,
    c: int,
)
    requires
        sound(m),
        placed(m, contexts),
        0 <= c < contexts.len(),
        forall|j: int| 0 <= j < symbols.len() ==> contexts[c].symbols.contains(#[trigger] symbols[j]),
    ensures
        placed(seeded_with(m, contexts[c].path, symbols), contexts),
    decreases symbols.len(),
{
    let path = contexts[c].path;
    if symbols.len() > 0 {
        let rest = symbols.drop_last();
        assert forall|j: int| 0 <= j < rest.len() implies contexts[c].symbols.contains(
            #[trigger] rest[j],
        ) by {
            assert(rest[j] == symbols[j]);
        }
        lemma_seeded_with_placed(m, rest, contexts, c);
        lemma_seeded_with_sound(m, path, rest);
        let before = seeded_with(m, path, rest);
        let s = symbols[symbols.len() - 1];
        assert(symbols.last() == s);
        let added = before.add_symbol(s);
        lemma_add_symbol_sound(before, s);
        lemma_add_node_placed(before, added, contexts);
        if added.files.contains_key(path) && added.symbols.contains_key(s.id()) {
            let x = added.nodes[added.symbols[s.id()] as int].symbol.unwrap();
            let j = choose|j: int| 0 <= j < contexts[c].symbols.len() && contexts[c].symbols[j] == s;
            assert(contexts[c].path == path && contexts[c].symbols[j].id() == x.id());
            assert(found_in(contexts, path, x));
            lemma_link_placed(added, contexts, added.files[path], added.symbols[s.id()]);
        }
    }
}

proof fn lemma_seeded_placed(contexts: Seq<FileContextModel>, limit: usize, n: int)
    requires
        0 <= n <= contexts.len(),
    ensures
        placed(
            seeded(
                GraphModel::empty(),
                pointed(
                    contexts,
                    tabled(all_symbols(contexts), SymbolKind::DEF),
                    tabled(all_symbols(contexts), SymbolKind::REF),
                    limit,
                ).take(n),
            ),
            contexts,
        ),
    decreases n,
{
    let defs = tabled(all_symbols(contexts), SymbolKind::DEF);
    let refs = tabled(all_symbols(contexts), SymbolKind::REF);
    let kept = pointed(contexts, defs, refs, limit);
    if n > 0 {
        lemma_seeded_placed(contexts, limit, n - 1);
        assert(kept.take(n).drop_last() =~= kept.take(n - 1));
        let c = kept[n - 1];
        assert(kept.take(n).last() == c);
        let before = seeded(GraphModel::empty(), kept.take(n - 1));
        lemma_empty_sound();
        lemma_seeded_sound(GraphModel::empty(), kept.take(n - 1));
        let with_file = before.add_file(c.path);
        lemma_add_file_sound(before, c.path);
        lemma_add_node_placed(before, with_file, contexts);
        crate::laws::lemma_with_point(contexts[n - 1].symbols, defs, refs, limit);
        assert forall|j: int| 0 <= j < c.symbols.len() implies contexts[n - 1].symbols.contains(
            #[trigger] c.symbols[j],
        ) by {
            assert(c.symbols.contains(c.symbols[j]));
        }
        assert(c.path == contexts[n - 1].path);
        lemma_seeded_with_placed(with_file, c.symbols, contexts, n - 1);
    }
}

proof fn lemma_bound_placed(m: GraphModel, contexts: Seq<FileContextModel>, plan: Seq<BindingModel>)
    requires
        sound(m),
        placed(m, contexts),
        forall|k: int| 0 <= k < plan.len() ==> binds((#[trigger] plan[k]).reference, plan[k].definition),
    ensures
        placed(bound(m, plan), contexts),
    decreases plan.len(),
{
    if plan.len() > 0 {
        assert forall|k: int| 0 <= k < plan.drop_last().len() implies binds(
            (#[trigger] plan.drop_last()[k]).reference,
            plan.drop_last()[k].definition,
        ) by {
            assert(plan.drop_last()[k] == plan[k]);
        }
        lemma_bound_placed(m, contexts, plan.drop_last());
        lemma_bound_sound(m, plan.drop_last());
        let before = bound(m, plan.drop_last());
        let b = plan[plan.len() - 1];
        assert(plan.last() == b);
        lemma_link_symbols_placed(before, contexts, b.reference.id(), b.definition.id());
        lemma_link_symbols_sound(before, b.reference, b.definition);
        lemma_enhance_placed(
            before.link_symbol_to_symbol(b.reference.id(), b.definition.id()),
            contexts,
            b.reference.id(),
            b.definition.id(),
            b.score,
        );
    }
}

proof fn lemma_linked_to_all_placed(
    m: GraphModel,
    contexts: Seq<FileContextModel>,
    d: SymbolModel,
    refs: Seq<SymbolModel>,
)
    requires
        sound(m),
        placed(m, contexts),
        forall|k: int| 0 <= k < refs.len() ==> binds(d, #[trigger] refs[k]),
    ensures
        placed(linked_to_all(m, d.id(), refs), contexts),
    decreases refs.len(),
{
    if refs.len() > 0 {
        assert forall|k: int| 0 <= k < refs.drop_last().len() implies binds(
            d,
            #[trigger] refs.drop_last()[k],
        ) by {
            assert(refs.drop_last()[k] == refs[k]);
        }
        lemma_linked_to_all_placed(m, contexts, d, refs.drop_last());
        lemma_linked_to_all_sound(m, d, refs.drop_last());
        lemma_link_symbols_placed(
            linked_to_all(m, d.id(), refs.drop_last()),
            contexts,
            d.id(),
            refs.last().id(),
        );
    }
}

proof fn lemma_linked_among_placed(
    m: GraphModel,
    contexts: Seq<FileContextModel>,
    defs: Seq<SymbolModel>,
    refs: Seq<SymbolModel>,
)
    requires
        sound(m),
        placed(m, contexts),
        forall|i: int, k: int|
            0 <= i < defs.len() && 0 <= k < refs.len() ==> binds(
                #[trigger] defs[i],
                #[trigger] refs[k],
            ),
    ensures
        placed(linked_among(m, defs, refs), contexts),
    decreases defs.len(),
{
    if defs.len() > 0 {
        assert forall|i: int, k: int|
            0 <= i < defs.drop_last().len() && 0 <= k < refs.len() implies binds(
            #[trigger] defs.drop_last()[i],
            #[trigger] refs[k],
        ) by {
            assert(defs.drop_last()[i] == defs[i]);
        }
        lemma_linked_among_placed(m, contexts, defs.drop_last(), refs);
        lemma_linked_among_sound(m, defs.drop_last(), refs);
        assert(defs.last() == defs[defs.len() - 1]);
        lemma_linked_to_all_placed(
            linked_among(m, defs.drop_last(), refs),
            contexts,
            defs.last(),
            refs,
        );
    }
}

proof fn lemma_fallen_back_all_placed(
    m: GraphModel,
    contexts: Seq<FileContextModel>,
    symbols: Seq<SymbolModel>,
    all: Seq<SymbolModel>,
)
    requires
        sound(m),
        placed(m, contexts),
    ensures
        placed(
            fallen_back_all(
                m,
                symbols,
                singles(tabled(all, SymbolKind::DEF)),
                tabled(all, SymbolKind::REF),
            ),
            contexts,
        ),
    decreases symbols.len(),
{
    let unique = singles(tabled(all, SymbolKind::DEF));
    let refs = tabled(all, SymbolKind::REF);
    if symbols.len() > 0 {
        lemma_fallen_back_all_placed(m, contexts, symbols.drop_last(), all);
        lemma_fallen_back_all_sound(m, symbols.drop_last(), all);
        let before = fallen_back_all(m, symbols.drop_last(), unique, refs);
        let s = symbols.last();
        lemma_tabled(all, SymbolKind::DEF);
        lemma_tabled(all, SymbolKind::REF);
        let ds = row_of(unique, s.name);
        let rs = row_of(refs, s.name);
        assert forall|i: int, k: int| 0 <= i < ds.len() && 0 <= k < rs.len() implies binds(
            #[trigger] ds[i],
            #[trigger] rs[k],
        ) by {
            assert(unique.contains_key(s.name));
            assert(tabled(all, SymbolKind::DEF).contains_key(s.name));
            assert(ds[i] == tabled(all, SymbolKind::DEF)[s.name][i]);
            assert(refs.contains_key(s.name));
            assert(rs[k] == refs[s.name][k]);
        }
        lemma_linked_among_placed(before, contexts, ds, rs);
    }
}

proof fn lemma_with_fallbacks_placed(
    m: GraphModel,
    contexts: Seq<FileContextModel>,
    kept: Seq<FileContextModel>,
    all: Seq<SymbolModel>,
)
    requires
        sound(m),
        placed(m, contexts),
    ensures
        placed(
            with_fallbacks(
                m,
                kept,
                singles(tabled(all, SymbolKind::DEF)),
                tabled(all, SymbolKind::REF),
            ),
            contexts,
        ),
    decreases kept.len(),
{
    if kept.len() > 0 {
        lemma_with_fallbacks_placed(m, contexts, kept.drop_last(), all);
        lemma_with_fallbacks_sound(m, kept.drop_last(), all);
        lemma_fallen_back_all_placed(
            with_fallbacks(
                m,
                kept.drop_last(),
                singles(tabled(all, SymbolKind::DEF)),
                tabled(all, SymbolKind::REF),
            ),
            contexts,
            kept.last().symbols,
            all,
        );
    }
}

/// In a built graph a file is linked only to symbols that were found in
/// it.
pub proof fn lemma_built_placed(
    h: HistoryModel,
    contexts: Seq<FileContextModel>,
    total: usize,
    ratio: Ratio,
    def_limit: usize,
    symbol_len_limit: usize,
)
    ensures
        placed(built(h, contexts, total, ratio, def_limit, symbol_len_limit), contexts),
{
    let all = all_symbols(contexts);
    let defs = tabled(all, SymbolKind::DEF);
    let refs = tabled(all, SymbolKind::REF);
    let kept = pointed(contexts, defs, refs, symbol_len_limit);
    lemma_seeded_placed(contexts, symbol_len_limit, contexts.len() as int);
    assert(kept.take(contexts.len() as int) =~= kept);
    lemma_empty_sound();
    lemma_seeded_sound(GraphModel::empty(), kept);
    let seeds = seeded(GraphModel::empty(), kept);
    let plan = all_links(h, seeds, defs, kept, total, ratio, def_limit);
    lemma_all_links_bind(h, seeds, all, kept, total, ratio, def_limit);
    lemma_bound_placed(seeds, contexts, plan);
    lemma_bound_sound(seeds, plan);
    lemma_with_fallbacks_placed(bound(seeds, plan), contexts, kept, all);
}

/// Every node that `incident` names is the other end of an edge at the
/// node.
pub proof fn lemma_incident_edges(edges: Seq<Link>, a: usize)
    ensures
        forall|k: int|
            0 <= k < incident(edges, a).len() ==> exists|i: int|
                0 <= i < edges.len() && joins(
                    #[trigger] edges[i],
                    a,
                    (#[trigger] incident(edges, a)[k]).0,
                ),
{
    lemma_from_to_edges(edges, a);
    let f = edges_from(edges, a);
    let t = edges_to(edges, a);
    assert forall|k: int| 0 <= k < incident(edges, a).len() implies exists|i: int|
        0 <= i < edges.len() && joins(#[trigger] edges[i], a, (#[trigger] incident(edges, a)[k]).0) by {
        if k < f.len() {
            assert(incident(edges, a)[k] == f[k]);
            let i = choose|i: int| 0 <= i < edges.len() && joins(#[trigger] edges[i], a, f[k].0);
            assert(joins(edges[i], a, incident(edges, a)[k].0));
        } else {
            assert(incident(edges, a)[k] == t[k - f.len()]);
            let i = choose|i: int|
                0 <= i < edges.len() && joins(#[trigger] edges[i], a, t[k - f.len()].0);
            assert(joins(edges[i], a, incident(edges, a)[k].0));
        }
    }
}

proof fn lemma_from_to_edges(edges: Seq<Link>, a: usize)
    ensures
        forall|k: int|
            0 <= k < edges_from(edges, a).len() ==> exists|i: int|
                0 <= i < edges.len() && joins(
                    #[trigger] edges[i],
                    a,
                    (#[trigger] edges_from(edges, a)[k]).0,
                ),
        forall|k: int|
            0 <= k < edges_to(edges, a).len() ==> exists|i: int|
                0 <= i < edges.len() && joins(#[trigger] edges[i], a, (#[trigger] edges_to(edges, a)[k]).0),
    decreases edges.len(),
{
    if edges.len() > 0 {
        let rest = edges.drop_last();
        let last = edges[edges.len() - 1];
        assert(edges.last() == last);
        lemma_from_to_edges(rest, a);
        let f = edges_from(edges, a);
        let fr = edges_from(rest, a);
        assert forall|k: int| 0 <= k < f.len() implies exists|i: int|
            0 <= i < edges.len() && joins(#[trigger] edges[i], a, (#[trigger] f[k]).0) by {
            if last.a == a && k == 0 {
                assert(joins(edges[edges.len() - 1], a, f[k].0));
            } else {
                let j = if last.a == a {
                    k - 1
                } else {
                    k
                };
                assert(f[k] == fr[j]);
                let i = choose|i: int| 0 <= i < rest.len() && joins(#[trigger] rest[i], a, fr[j].0);
                assert(edges[i] == rest[i]);
                assert(joins(edges[i], a, f[k].0));
            }
        }
        let t = edges_to(edges, a);
        let tr = edges_to(rest, a);
        assert forall|k: int| 0 <= k < t.len() implies exists|i: int|
            0 <= i < edges.len() && joins(#[trigger] edges[i], a, (#[trigger] t[k]).0) by {
            if last.b == a && last.a != a && k == 0 {
                assert(joins(edges[edges.len() - 1], a, t[k].0));
            } else {
                let j = if last.b == a && last.a != a {
                    k - 1
                } else {
                    k
                };
                assert(t[k] == tr[j]);
                let i = choose|i: int| 0 <= i < rest.len() && joins(#[trigger] rest[i], a, tr[j].0);
                assert(edges[i] == rest[i]);
                assert(joins(edges[i], a, t[k].0));
            }
        }
    }
}

/// Every symbol among the nodes that `hits` names is the symbol of one of
/// those nodes.
pub proof fn lemma_symbols_among(m: GraphModel, hits: Seq<(usize, usize)>)
    ensures
        forall|k: int|
            0 <= k < symbols_among(m.nodes, hits).len() ==> exists|j: int|
                0 <= j < hits.len() && (#[trigger] hits[j]).0 < m.nodes.len()
                    && m.nodes[hits[j].0 as int].symbol == Some(
                    (#[trigger] symbols_among(m.nodes, hits)[k]).0,
                ),
    decreases hits.len(),
{
    if hits.len() > 0 {
        let rest = hits.drop_last();
        lemma_symbols_among(m, rest);
        let out = symbols_among(m.nodes, hits);
        let before = symbols_among(m.nodes, rest);
        assert forall|k: int| 0 <= k < out.len() implies exists|j: int|
            0 <= j < hits.len() && (#[trigger] hits[j]).0 < m.nodes.len()
                && m.nodes[hits[j].0 as int].symbol == Some((#[trigger] out[k]).0) by {
            if k < before.len() {
                assert(out[k] == before[k]);
                let j = choose|j: int|
                    0 <= j < rest.len() && (#[trigger] rest[j]).0 < m.nodes.len()
                        && m.nodes[rest[j].0 as int].symbol == Some(before[k].0);
                assert(hits[j] == rest[j]);
            } else {
                assert(hits[hits.len() - 1] == hits.last());
            }
        }
    }
}

/// In a sound graph the symbols linked to a symbol bind with it: a
/// definition is linked to references of its name only, and a reference to
/// definitions of its name only.
pub proof fn lemma_neighbors_bind(m: GraphModel, id: Seq<char>)
    requires
        sound(m),
        m.symbols.contains_key(id),
    ensures
        forall|k: int|
            0 <= k < m.symbol_neighbors(id).len() ==> binds(
                m.nodes[m.symbols[id] as int].symbol.unwrap(),
                (#[trigger] m.symbol_neighbors(id)[k]).0,
            ),
{
    let a = m.symbols[id];
    let s = m.nodes[a as int].symbol.unwrap();
    let hits = incident(m.edges, a);
    lemma_incident_edges(m.edges, a);
    lemma_symbols_among(m, hits);
    let out = m.symbol_neighbors(id);
    assert forall|k: int| 0 <= k < out.len() implies binds(s, (#[trigger] out[k]).0) by {
        let j = choose|j: int|
            0 <= j < hits.len() && (#[trigger] hits[j]).0 < m.nodes.len()
                && m.nodes[hits[j].0 as int].symbol == Some(out[k].0);
        let i = choose|i: int| 0 <= i < m.edges.len() && joins(#[trigger] m.edges[i], a, hits[j].0);
        assert(edge_is_sound(m, m.edges[i]));
    }
}

} // verus!

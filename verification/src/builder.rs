//! The phases of a build: seeding the graph with files and symbols, linking
//! each reference to the definitions it most likely means, and falling back
//! on names that only one definition bears.

use crate::extractor::{lemma_symbols_in, symbols_in};
use crate::graph::{
    all_symbols, build_global_symbol_table, extractor_for_file, filter_pointless_symbols,
    language_of, paths_of, pointed, FileContext, FileContextModel, Graph, GraphConfig, GraphView,
    SourceFile,
};
use crate::history::{history_files, history_new, history_of, HistoryModel};
use crate::index::NameIndex;
use crate::model::GraphModel;
use crate::order::{is_ranking, is_sorted, lemma_sorted_names, order_desc, rank_desc, sort_names};
use crate::symbol::{Symbol, SymbolGraph, SymbolKind, SymbolModel};
use crate::table::{row_of, singles, tabled, SymbolTable};
use crate::text::{matches_pattern, pattern_compiles, regex_compiles, regex_match};
use crate::weight::{
    lemma_record_gain, link_score, score_between, small_commits_of, FileCommits, Ratio,
};
use vstd::prelude::*;

verus! {

/// The graph after the symbols of one file were added and linked to it.
pub open spec fn seeded_with(m: GraphModel, path: Seq<char>, symbols: Seq<SymbolModel>) -> GraphModel
    decreases symbols.len(),
{
    if symbols.len() == 0 {
        m
    } else {
        seeded_with(m, path, symbols.drop_last()).add_symbol(symbols.last()).link_file_to_symbol(
            path,
            symbols.last().id(),
        )
    }
}

/// The graph after every file was added with its symbols.
pub open spec fn seeded(m: GraphModel, contexts: Seq<FileContextModel>) -> GraphModel
    decreases contexts.len(),
{
    if contexts.len() == 0 {
        m
    } else {
        seeded_with(
            seeded(m, contexts.drop_last()).add_file(contexts.last().path),
            contexts.last().path,
            contexts.last().symbols,
        )
    }
}

/// A link that the build decided on: from a reference to a definition, with
/// the score that the link gets.
pub struct Binding {
    pub reference: Symbol,
    pub definition: Symbol,
    pub score: usize,
}

/// The mathematical value of a [`Binding`].
pub struct BindingModel {
    pub reference: SymbolModel,
    pub definition: SymbolModel,
    pub score: usize,
}

impl View for Binding {
    type V = BindingModel;

    open spec fn view(&self) -> BindingModel {
        BindingModel {
            reference: self.reference@,
            definition: self.definition@,
            score: self.score,
        }
    }
}

impl DeepView for Binding {
    type V = BindingModel;

    open spec fn deep_view(&self) -> BindingModel {
        self@
    }
}

/// The graph after the links of `plan` were made, in their order: each
/// links its two symbols and raises the weight between them by its score.
pub open spec fn bound(m: GraphModel, plan: Seq<BindingModel>) -> GraphModel
    decreases plan.len(),
{
    if plan.len() == 0 {
        m
    } else {
        let b = plan.last();
        bound(m, plan.drop_last()).link_symbol_to_symbol(
            b.reference.id(),
            b.definition.id(),
        ).enhance_symbol_to_symbol(b.reference.id(), b.definition.id(), b.score)
    }
}

/// The graph after the symbol with the identifier `id` was linked to each
/// of `refs`.
pub open spec fn linked_to_all(m: GraphModel, id: Seq<char>, refs: Seq<SymbolModel>) -> GraphModel
    decreases refs.len(),
{
    if refs.len() == 0 {
        m
    } else {
        linked_to_all(m, id, refs.drop_last()).link_symbol_to_symbol(id, refs.last().id())
    }
}

/// The graph after each of `defs` was linked to each of `refs`.
pub open spec fn linked_among(m: GraphModel, defs: Seq<SymbolModel>, refs: Seq<SymbolModel>) -> GraphModel
    decreases defs.len(),
{
    if defs.len() == 0 {
        m
    } else {
        linked_to_all(linked_among(m, defs.drop_last(), refs), defs.last().id(), refs)
    }
}

/// The graph after the fallback for one symbol: a definition without any
/// link whose name no other definition bears is linked to every reference
/// of that name.
pub open spec fn fallen_back(
    m: GraphModel,
    s: SymbolModel,
    unique: Map<Seq<char>, Seq<SymbolModel>>,
    refs: Map<Seq<char>, Seq<SymbolModel>>,
) -> GraphModel {
    if s.kind == SymbolKind::DEF && m.symbol_neighbors(s.id()).len() == 0 {
        linked_among(m, row_of(unique, s.name), row_of(refs, s.name))
    } else {
        m
    }
}

/// The graph after the fallback for the symbols of one file, in their
/// order.
pub open spec fn fallen_back_all(
    m: GraphModel,
    symbols: Seq<SymbolModel>,
    unique: Map<Seq<char>, Seq<SymbolModel>>,
    refs: Map<Seq<char>, Seq<SymbolModel>>,
) -> GraphModel
    decreases symbols.len(),
{
    if symbols.len() == 0 {
        m
    } else {
        fallen_back(fallen_back_all(m, symbols.drop_last(), unique, refs), symbols.last(), unique, refs)
    }
}

/// The graph after the fallback for every file, in their order.
pub open spec fn with_fallbacks(
    m: GraphModel,
    contexts: Seq<FileContextModel>,
    unique: Map<Seq<char>, Seq<SymbolModel>>,
    refs: Map<Seq<char>, Seq<SymbolModel>>,
) -> GraphModel
    decreases contexts.len(),
{
    if contexts.len() == 0 {
        m
    } else {
        fallen_back_all(
            with_fallbacks(m, contexts.drop_last(), unique, refs),
            contexts.last().symbols,
            unique,
            refs,
        )
    }
}

/// Adds every file with its symbols to an empty graph and links each
/// symbol to its file.
pub fn seed(file_contexts: &Vec<FileContext>) -> (g: SymbolGraph)
    ensures
        g.wf(),
        g@ == seeded(GraphModel::empty(), file_contexts.deep_view()),
{
    let mut g = SymbolGraph::new();
    let ghost contexts = file_contexts.deep_view();
    let mut i: usize = 0;
    while i < file_contexts.len()
        invariant
            i <= file_contexts.len(),
            contexts == file_contexts.deep_view(),
            g.wf(),
            g@ == seeded(GraphModel::empty(), contexts.take(i as int)),
        decreases file_contexts.len() - i,
    {
        let context = &file_contexts[i];
        g.add_file(&context.path);
        let ghost base = g@;
        let mut j: usize = 0;
        while j < context.symbols.len()
            invariant
                j <= context.symbols.len(),
                g.wf(),
                g@ == seeded_with(base, context.path@, context.symbols.deep_view().take(j as int)),
            decreases context.symbols.len() - j,
        {
            proof {
                assert(context.symbols.deep_view().take(j + 1).drop_last()
                    =~= context.symbols.deep_view().take(j as int));
                assert(context.symbols.deep_view().take(j + 1).last() == context.symbols[j as int]@);
            }
            g.add_symbol(context.symbols[j].clone());
            g.link_file_to_symbol(&context.path, &context.symbols[j]);
            j += 1;
        }
        proof {
            assert(context.symbols.deep_view().take(context.symbols.len() as int)
                =~= context.symbols.deep_view());
            assert(contexts.take(i + 1).drop_last() =~= contexts.take(i as int));
            assert(contexts.take(i + 1).last() == context@);
        }
        i += 1;
    }
    assert(contexts.take(file_contexts.len() as int) =~= contexts);
    g
}

/// Makes the links of `plan` in their order.
pub fn bind(g: &mut SymbolGraph, plan: &Vec<Binding>)
    requires
        old(g).wf(),
    ensures
        final(g).wf(),
        final(g)@ == bound(old(g)@, plan.deep_view()),
{
    let mut i: usize = 0;
    while i < plan.len()
        invariant
            i <= plan.len(),
            g.wf(),
            g@ == bound(old(g)@, plan.deep_view().take(i as int)),
        decreases plan.len() - i,
    {
        proof {
            assert(plan.deep_view().take(i + 1).drop_last() =~= plan.deep_view().take(i as int));
            assert(plan.deep_view().take(i + 1).last() == plan[i as int]@);
        }
        let b = &plan[i];
        g.link_symbol_to_symbol(&b.reference, &b.definition);
        g.enhance_symbol_to_symbol(&b.reference.id(), &b.definition.id(), b.score);
        i += 1;
    }
    assert(plan.deep_view().take(plan.len() as int) =~= plan.deep_view());
}

fn link_among(g: &mut SymbolGraph, defs: &Vec<Symbol>, refs: &Vec<Symbol>)
    requires
        old(g).wf(),
    ensures
        final(g).wf(),
        final(g)@ == linked_among(old(g)@, defs.deep_view(), refs.deep_view()),
{
    let mut i: usize = 0;
    while i < defs.len()
        invariant
            i <= defs.len(),
            g.wf(),
            g@ == linked_among(old(g)@, defs.deep_view().take(i as int), refs.deep_view()),
        decreases defs.len() - i,
    {
        proof {
            assert(defs.deep_view().take(i + 1).drop_last() =~= defs.deep_view().take(i as int));
            assert(defs.deep_view().take(i + 1).last() == defs[i as int]@);
        }
        let ghost base = g@;
        let mut j: usize = 0;
        while j < refs.len()
            invariant
                i < defs.len(),
                j <= refs.len(),
                g.wf(),
                g@ == linked_to_all(base, defs[i as int]@.id(), refs.deep_view().take(j as int)),
            decreases refs.len() - j,
        {
            proof {
                assert(refs.deep_view().take(j + 1).drop_last() =~= refs.deep_view().take(j as int));
                assert(refs.deep_view().take(j + 1).last() == refs[j as int]@);
            }
            g.link_symbol_to_symbol(&defs[i], &refs[j]);
            j += 1;
        }
        assert(refs.deep_view().take(refs.len() as int) =~= refs.deep_view());
        i += 1;
    }
    assert(defs.deep_view().take(defs.len() as int) =~= defs.deep_view());
}

/// The fallback: every definition without a link whose name no other
/// definition bears is linked to every reference of that name.
pub fn fall_back(
    g: &mut SymbolGraph,
    file_contexts: &Vec<FileContext>,
    unique: &SymbolTable,
    refs: &SymbolTable,
)
    requires
        old(g).wf(),
        unique.wf(),
        refs.wf(),
    ensures
        final(g).wf(),
        final(g)@ == with_fallbacks(old(g)@, file_contexts.deep_view(), unique@, refs@),
{
    let ghost contexts = file_contexts.deep_view();
    let nothing: Vec<Symbol> = Vec::new();
    assert(nothing.deep_view() =~= Seq::<SymbolModel>::empty());
    let mut i: usize = 0;
    while i < file_contexts.len()
        invariant
            i <= file_contexts.len(),
            contexts == file_contexts.deep_view(),
            g.wf(),
            unique.wf(),
            refs.wf(),
            nothing.deep_view() == Seq::<SymbolModel>::empty(),
            g@ == with_fallbacks(old(g)@, contexts.take(i as int), unique@, refs@),
        decreases file_contexts.len() - i,
    {
        let symbols = &file_contexts[i].symbols;
        let ghost base = g@;
        let mut j: usize = 0;
        while j < symbols.len()
            invariant
                j <= symbols.len(),
                g.wf(),
                unique.wf(),
                refs.wf(),
                nothing.deep_view() == Seq::<SymbolModel>::empty(),
                g@ == fallen_back_all(base, symbols.deep_view().take(j as int), unique@, refs@),
            decreases symbols.len() - j,
        {
            proof {
                assert(symbols.deep_view().take(j + 1).drop_last() =~= symbols.deep_view().take(
                    j as int,
                ));
                assert(symbols.deep_view().take(j + 1).last() == symbols[j as int]@);
            }
            let symbol = &symbols[j];
            if symbol.kind == SymbolKind::DEF {
                let linked = g.list_references_by_definition(&symbol.id());
                if linked.len() == 0 {
                    let fallback_defs = match unique.get(&symbol.name) {
                        Some(row) => row,
                        None => &nothing,
                    };
                    let fallback_refs = match refs.get(&symbol.name) {
                        Some(row) => row,
                        None => &nothing,
                    };
                    link_among(g, fallback_defs, fallback_refs);
                }
            }
            j += 1;
        }
        proof {
            assert(symbols.deep_view().take(symbols.len() as int) =~= symbols.deep_view());
            assert(contexts.take(i + 1).drop_last() =~= contexts.take(i as int));
            assert(contexts.take(i + 1).last().symbols == symbols.deep_view());
        }
        i += 1;
    }
    assert(contexts.take(file_contexts.len() as int) =~= contexts);
}

/// The scores of the links from a reference in the file `from` to each of
/// the definitions `cands`.
pub open spec fn candidate_scores(
    h: HistoryModel,
    m: GraphModel,
    from: Seq<char>,
    cands: Seq<SymbolModel>,
    total: usize,
    ratio: Ratio,
) -> Seq<usize> {
    Seq::new(
        cands.len(),
        |i: int|
            link_score(
                h,
                from,
                cands[i].file,
                total,
                ratio,
                m.list_references(cands[i].file).len() as usize,
            ),
    )
}

/// The definitions whose score is not zero, each with its score, in their
/// order.
pub open spec fn positive(cands: Seq<SymbolModel>, scores: Seq<usize>) -> Seq<(SymbolModel, usize)>
    decreases cands.len(),
{
    if cands.len() == 0 || scores.len() != cands.len() {
        Seq::empty()
    } else {
        let rest = positive(cands.drop_last(), scores.drop_last());
        if scores.last() > 0 {
            rest.push((cands.last(), scores.last()))
        } else {
            rest
        }
    }
}

/// Every scored definition is one of the candidates.
pub proof fn lemma_positive(cands: Seq<SymbolModel>, scores: Seq<usize>)
    ensures
        forall|k: int|
            0 <= k < positive(cands, scores).len() ==> cands.contains(
                (#[trigger] positive(cands, scores)[k]).0,
            ),
    decreases cands.len(),
{
    if cands.len() > 0 && scores.len() == cands.len() {
        lemma_positive(cands.drop_last(), scores.drop_last());
        let kept = positive(cands, scores);
        let before = positive(cands.drop_last(), scores.drop_last());
        assert forall|k: int| 0 <= k < kept.len() implies cands.contains((#[trigger] kept[k]).0) by {
            if k < before.len() {
                assert(kept[k] == before[k]);
                let j = choose|j: int|
                    0 <= j < cands.drop_last().len() && cands.drop_last()[j] == before[k].0;
                assert(cands[j] == before[k].0);
            } else {
                assert(cands[cands.len() - 1] == kept[k].0);
            }
        }
    }
}

/// How many definitions a reference is linked to at most: the configured
/// limit, but at least one.
pub open spec fn link_limit(def_limit: usize) -> usize {
    if def_limit > 1 {
        def_limit
    } else {
        1
    }
}

/// The scores of a list of scored definitions.
pub open spec fn scores_of(kept: Seq<(SymbolModel, usize)>) -> Seq<usize> {
    Seq::new(kept.len(), |i: int| kept[i].1)
}

/// The links of the reference `r` to the scored definitions `kept`: the
/// highest scores first, equal scores in their order, and no more links
/// than the limit allows.
pub open spec fn bindings_of(r: SymbolModel, kept: Seq<(SymbolModel, usize)>, def_limit: usize) -> Seq<
    BindingModel,
> {
    let order = order_desc(scores_of(kept));
    let n = if kept.len() < link_limit(def_limit) {
        kept.len()
    } else {
        link_limit(def_limit) as nat
    };
    Seq::new(
        n,
        |k: int|
            BindingModel {
                reference: r,
                definition: kept[order[k] as int].0,
                score: kept[order[k] as int].1,
            },
    )
}

/// The links of the reference `r`, found in the file `from`: to the
/// definitions of its name that share small commits with its file.
pub open spec fn reference_links(
    h: HistoryModel,
    m: GraphModel,
    defs: Map<Seq<char>, Seq<SymbolModel>>,
    from: Seq<char>,
    r: SymbolModel,
    total: usize,
    ratio: Ratio,
    def_limit: usize,
) -> Seq<BindingModel> {
    let cands = row_of(defs, r.name);
    bindings_of(r, positive(cands, candidate_scores(h, m, from, cands, total, ratio)), def_limit)
}

/// The links of the references among the symbols of one file.
pub open spec fn context_links(
    h: HistoryModel,
    m: GraphModel,
    defs: Map<Seq<char>, Seq<SymbolModel>>,
    path: Seq<char>,
    symbols: Seq<SymbolModel>,
    total: usize,
    ratio: Ratio,
    def_limit: usize,
) -> Seq<BindingModel>
    decreases symbols.len(),
{
    if symbols.len() == 0 {
        Seq::empty()
    } else {
        let rest = context_links(h, m, defs, path, symbols.drop_last(), total, ratio, def_limit);
        if symbols.last().kind == SymbolKind::REF {
            rest + reference_links(h, m, defs, path, symbols.last(), total, ratio, def_limit)
        } else {
            rest
        }
    }
}

/// The links of the references of all files.
pub open spec fn all_links(
    h: HistoryModel,
    m: GraphModel,
    defs: Map<Seq<char>, Seq<SymbolModel>>,
    contexts: Seq<FileContextModel>,
    total: usize,
    ratio: Ratio,
    def_limit: usize,
) -> Seq<BindingModel>
    decreases contexts.len(),
{
    if contexts.len() == 0 {
        Seq::empty()
    } else {
        all_links(h, m, defs, contexts.drop_last(), total, ratio, def_limit) + context_links(
            h,
            m,
            defs,
            contexts.last().path,
            contexts.last().symbols,
            total,
            ratio,
            def_limit,
        )
    }
}

/// What was found out about the files met so far: the small commits of
/// each and the number of its references.
struct Ledger {
    index: NameIndex,
    commits: Vec<FileCommits>,
    refs: Vec<usize>,
}

impl Ledger {
    spec fn wf(&self, h: HistoryModel, m: GraphModel, total: usize, ratio: Ratio) -> bool {
        &&& self.index.wf()
        &&& self.commits@.len() == self.refs@.len()
        &&& forall|p: Seq<char>| #[trigger]
            self.index@.contains_key(p) ==> self.index@[p] < self.commits@.len()
                && self.commits@[self.index@[p] as int].describes(h, p, total, ratio)
                && self.refs@[self.index@[p] as int] == m.list_references(p).len()
    }

    fn new(
        Ghost(h): Ghost<HistoryModel>,
        Ghost(m): Ghost<GraphModel>,
        total: usize,
        ratio: Ratio,
    ) -> (r: Ledger)
        ensures
            r.wf(h, m, total, ratio),
    {
        Ledger { index: NameIndex::new(), commits: Vec::new(), refs: Vec::new() }
    }

    /// The place of the file `path` in the ledger; the file is looked up in
    /// the history and the graph when it is met for the first time.
    fn slot_of(
        &mut self,
        history: &cupido::relation::graph::RelationGraph,
        graph: &SymbolGraph,
        path: &String,
        total: usize,
        ratio: Ratio,
    ) -> (slot: usize)
        requires
            graph.wf(),
            old(self).wf(history_of(*history), graph@, total, ratio),
        ensures
            final(self).wf(history_of(*history), graph@, total, ratio),
            slot < final(self).commits@.len(),
            final(self).commits@[slot as int].describes(history_of(*history), path@, total, ratio),
            final(self).refs@[slot as int] == graph@.list_references(path@).len(),
    {
        if let Some(slot) = self.index.get(path) {
            return slot;
        }
        let slot = self.commits.len();
        let ghost h = history_of(*history);
        let commits = small_commits_of(history, path, total, ratio);
        let refs = graph.list_references(path).len();
        self.index.insert(path.clone(), slot);
        self.commits.push(commits);
        self.refs.push(refs);
        proof {
            assert forall|p: Seq<char>| #[trigger] self.index@.contains_key(p) implies self.index@[p]
                < self.commits@.len() && self.commits@[self.index@[p] as int].describes(
                h,
                p,
                total,
                ratio,
            ) && self.refs@[self.index@[p] as int] == graph@.list_references(p).len() by {
                if p != path@ {
                    assert(old(self).index@.contains_key(p));
                }
            }
        }
        slot
    }
}

fn append_bindings(out: &mut Vec<Binding>, more: Vec<Binding>)
    ensures
        final(out).deep_view() == old(out).deep_view() + more.deep_view(),
{
    let mut more = more;
    let ghost added = more.deep_view();
    out.append(&mut more);
    assert(out.deep_view() =~= old(out).deep_view() + added);
}

/// The links of one reference.
fn links_of_reference(
    history: &cupido::relation::graph::RelationGraph,
    graph: &SymbolGraph,
    ledger: &mut Ledger,
    defs: &SymbolTable,
    from: &String,
    mine: &FileCommits,
    reference: &Symbol,
    total: usize,
    ratio: Ratio,
    def_limit: usize,
) -> (r: Vec<Binding>)
    requires
        graph.wf(),
        defs.wf(),
        old(ledger).wf(history_of(*history), graph@, total, ratio),
        mine.describes(history_of(*history), from@, total, ratio),
    ensures
        final(ledger).wf(history_of(*history), graph@, total, ratio),
        r.deep_view() == reference_links(
            history_of(*history),
            graph@,
            defs@,
            from@,
            reference@,
            total,
            ratio,
            def_limit,
        ),
{
    let ghost h = history_of(*history);
    let ghost m = graph@;
    let nothing: Vec<Symbol> = Vec::new();
    assert(nothing.deep_view() =~= Seq::<SymbolModel>::empty());
    let cands = match defs.get(&reference.name) {
        Some(row) => row,
        None => &nothing,
    };
    let ghost cs = cands.deep_view();
    assert(cs == row_of(defs@, reference@.name));
    let ghost scores = candidate_scores(h, m, from@, cs, total, ratio);
    let mut kept: Vec<usize> = Vec::new();
    let mut kept_scores: Vec<usize> = Vec::new();
    let ghost mut pairs: Seq<(SymbolModel, usize)> = Seq::empty();
    let mut i: usize = 0;
    while i < cands.len()
        invariant
            i <= cands.len(),
            graph.wf(),
            h == history_of(*history),
            m == graph@,
            cs == cands.deep_view(),
            scores == candidate_scores(h, m, from@, cs, total, ratio),
            ledger.wf(h, m, total, ratio),
            mine.describes(h, from@, total, ratio),
            pairs == positive(cs.take(i as int), scores.take(i as int)),
            kept@.len() == pairs.len(),
            kept_scores@ == scores_of(pairs),
            forall|k: int|
                0 <= k < kept@.len() ==> (#[trigger] kept@[k]) < cands.len() && cs[kept@[k] as int]
                    == pairs[k].0,
        decreases cands.len() - i,
    {
        proof {
            assert(cs.take(i + 1).drop_last() =~= cs.take(i as int));
            assert(scores.take(i + 1).drop_last() =~= scores.take(i as int));
            assert(cs.take(i + 1).last() == cs[i as int]);
            assert(scores.take(i + 1).last() == scores[i as int]);
        }
        let slot = ledger.slot_of(history, graph, &cands[i].file, total, ratio);
        let theirs = &ledger.commits[slot];
        let score = score_between(mine, theirs, total, ledger.refs[slot]);
        proof {
            lemma_record_gain(h, mine.names(), mine.worth(), theirs.names(), total);
            assert(score == scores[i as int]);
        }
        if score > 0 {
            kept.push(i);
            kept_scores.push(score);
            proof {
                pairs = pairs.push((cs[i as int], score));
                assert(kept_scores@ =~= scores_of(pairs));
            }
        }
        i += 1;
    }
    proof {
        assert(cs.take(cands.len() as int) =~= cs);
        assert(scores.take(cands.len() as int) =~= scores);
    }
    let order = rank_desc(&kept_scores);
    let limit = if def_limit > 1 {
        def_limit
    } else {
        1
    };
    let n = if order.len() < limit {
        order.len()
    } else {
        limit
    };
    let mut out: Vec<Binding> = Vec::new();
    let mut k: usize = 0;
    while k < n
        invariant
            k <= n <= order.len(),
            order@ == order_desc(scores_of(pairs)),
            is_ranking(order@, kept_scores@, kept_scores.len() as int),
            kept@.len() == pairs.len(),
            kept_scores@ == scores_of(pairs),
            cs == cands.deep_view(),
            forall|j: int|
                0 <= j < kept@.len() ==> (#[trigger] kept@[j]) < cands.len() && cs[kept@[j] as int]
                    == pairs[j].0,
            out.len() == k,
            forall|j: int|
                0 <= j < k ==> (#[trigger] out[j])@ == (BindingModel {
                    reference: reference@,
                    definition: pairs[order@[j] as int].0,
                    score: pairs[order@[j] as int].1,
                }),
        decreases n - k,
    {
        let at = order[k];
        assert(at < kept.len());
        out.push(
            Binding {
                reference: reference.clone(),
                definition: cands[kept[at]].clone(),
                score: kept_scores[at],
            },
        );
        k += 1;
    }
    assert(out.deep_view() =~= bindings_of(reference@, pairs, def_limit));
    out
}

/// The links that the references of all files get: each reference is
/// linked to the definitions of its name whose files share small commits
/// with its own, the best-scored first.
pub fn plan_links(
    history: &cupido::relation::graph::RelationGraph,
    graph: &SymbolGraph,
    defs: &SymbolTable,
    file_contexts: &Vec<FileContext>,
    total: usize,
    ratio: Ratio,
    def_limit: usize,
) -> (plan: Vec<Binding>)
    requires
        graph.wf(),
        defs.wf(),
    ensures
        plan.deep_view() == all_links(
            history_of(*history),
            graph@,
            defs@,
            file_contexts.deep_view(),
            total,
            ratio,
            def_limit,
        ),
{
    let ghost h = history_of(*history);
    let ghost m = graph@;
    let ghost contexts = file_contexts.deep_view();
    let mut ledger = Ledger::new(Ghost(h), Ghost(m), total, ratio);
    let mut plan: Vec<Binding> = Vec::new();
    assert(plan.deep_view() =~= Seq::<BindingModel>::empty());
    let mut i: usize = 0;
    while i < file_contexts.len()
        invariant
            i <= file_contexts.len(),
            graph.wf(),
            defs.wf(),
            h == history_of(*history),
            m == graph@,
            contexts == file_contexts.deep_view(),
            ledger.wf(h, m, total, ratio),
            plan.deep_view() == all_links(h, m, defs@, contexts.take(i as int), total, ratio, def_limit),
        decreases file_contexts.len() - i,
    {
        let context = &file_contexts[i];
        let mine = small_commits_of(history, &context.path, total, ratio);
        let ghost base = plan.deep_view();
        let ghost symbols = context.symbols.deep_view();
        let mut j: usize = 0;
        proof {
            assert(base + Seq::<BindingModel>::empty() =~= base);
        }
        while j < context.symbols.len()
            invariant
                j <= context.symbols.len(),
                graph.wf(),
                defs.wf(),
                h == history_of(*history),
                m == graph@,
                symbols == context.symbols.deep_view(),
                ledger.wf(h, m, total, ratio),
                mine.describes(h, context.path@, total, ratio),
                plan.deep_view() == base + context_links(
                    h,
                    m,
                    defs@,
                    context.path@,
                    symbols.take(j as int),
                    total,
                    ratio,
                    def_limit,
                ),
            decreases context.symbols.len() - j,
        {
            proof {
                assert(symbols.take(j + 1).drop_last() =~= symbols.take(j as int));
                assert(symbols.take(j + 1).last() == context.symbols[j as int]@);
            }
            let symbol = &context.symbols[j];
            if symbol.kind == SymbolKind::REF {
                let ghost before = context_links(
                    h,
                    m,
                    defs@,
                    context.path@,
                    symbols.take(j as int),
                    total,
                    ratio,
                    def_limit,
                );
                let links = links_of_reference(
                    history,
                    graph,
                    &mut ledger,
                    defs,
                    &context.path,
                    &mine,
                    symbol,
                    total,
                    ratio,
                    def_limit,
                );
                append_bindings(&mut plan, links);
                assert(plan.deep_view() =~= base + (before + links.deep_view()));
            }
            j += 1;
        }
        proof {
            assert(symbols.take(context.symbols.len() as int) =~= symbols);
            assert(contexts.take(i + 1).drop_last() =~= contexts.take(i as int));
            assert(contexts.take(i + 1).last() == context@);
        }
        i += 1;
    }
    assert(contexts.take(file_contexts.len() as int) =~= contexts);
    plan
}

/// Why a build gave no graph.
#[derive(Debug, Clone, Copy, PartialEq, Eq, Structural)]
pub enum BuildError {
    /// The pattern that excludes files is no regular expression.
    InvalidRegex,
}

/// The symbol graph that a build makes of the symbols of the files: the
/// files are seeded with their symbols that have a point, each reference
/// is linked to its best-scored definitions, and definitions left without a
/// link fall back on their name.
pub open spec fn built(
    h: HistoryModel,
    contexts: Seq<FileContextModel>,
    total: usize,
    ratio: Ratio,
    def_limit: usize,
    symbol_len_limit: usize,
) -> GraphModel {
    let defs = tabled(all_symbols(contexts), SymbolKind::DEF);
    let refs = tabled(all_symbols(contexts), SymbolKind::REF);
    let kept = pointed(contexts, defs, refs, symbol_len_limit);
    let seeds = seeded(GraphModel::empty(), kept);
    let linked = bound(seeds, all_links(h, seeds, defs, kept, total, ratio, def_limit));
    with_fallbacks(linked, kept, singles(defs), refs)
}

/// Whether the pattern `pattern` excludes the file `file`; the empty
/// pattern excludes nothing.
pub open spec fn excluded(pattern: Seq<char>, file: Seq<char>) -> bool {
    pattern.len() > 0 && regex_match(pattern, file)
}

/// Whether `files` are the files of the history that the pattern does not
/// exclude, each once, in lexicographic order.
pub open spec fn are_candidates(files: Seq<Seq<char>>, h: HistoryModel, pattern: Seq<char>) -> bool {
    &&& is_sorted(files)
    &&& files.no_duplicates()
    &&& forall|f: Seq<char>| #[trigger]
        files.contains(f) <==> h.file_commits.contains_key(f) && !excluded(pattern, f)
}

/// The symbols of a file as its context, unless they are `symbol_limit` or
/// more: such a file is left out.
pub fn context_of(file_name: &String, symbols: Vec<Symbol>, symbol_limit: usize) -> (r: Option<
    FileContext,
>)
    ensures
        r is Some <==> symbols.len() < symbol_limit,
        r is Some ==> r.unwrap()@ == (FileContextModel {
            path: file_name@,
            symbols: symbols.deep_view(),
        }),
{
    if symbols.len() < symbol_limit {
        Some(FileContext { path: file_name.clone(), symbols })
    } else {
        None
    }
}

/// Whether `names` are in the order of `within`, from which some may be
/// missing.
pub open spec fn in_order_of(names: Seq<Seq<char>>, within: Seq<Seq<char>>) -> bool
    decreases within.len(),
{
    if names.len() == 0 {
        true
    } else if within.len() == 0 {
        false
    } else if names.last() == within.last() {
        in_order_of(names.drop_last(), within.drop_last())
    } else {
        in_order_of(names, within.drop_last())
    }
}

/// The paths of a list of files with their text.
pub open spec fn source_paths(sources: Seq<SourceFile>) -> Seq<Seq<char>> {
    Seq::new(sources.len(), |i: int| sources[i].path@)
}

/// The context of the file `path` with the text `content`: its symbols in
/// the language of its name. A file in a language that is not supported
/// has none, nor has a file with `symbol_limit` symbols or more.
pub open spec fn context_for(path: Seq<char>, content: Seq<char>, symbol_limit: usize) -> Option<
    FileContextModel,
> {
    match language_of(path) {
        Some(language) => if symbols_in(language, path, content).len() < symbol_limit {
            Some(FileContextModel { path, symbols: symbols_in(language, path, content) })
        } else {
            None
        },
        None => None,
    }
}

/// The contexts of those of `sources` whose path is in `listed` and that
/// have one, in the order of the sources.
pub open spec fn contexts_among(
    sources: Seq<SourceFile>,
    listed: Set<Seq<char>>,
    symbol_limit: usize,
) -> Seq<FileContextModel>
    decreases sources.len(),
{
    if sources.len() == 0 {
        Seq::empty()
    } else {
        let rest = contexts_among(sources.drop_last(), listed, symbol_limit);
        let last = sources.last();
        if listed.contains(last.path@) && context_for(last.path@, last.content@, symbol_limit)
            is Some {
            rest.push(context_for(last.path@, last.content@, symbol_limit).unwrap())
        } else {
            rest
        }
    }
}

/// The contexts of those of `sources` that have one, in the order of the
/// sources.
pub open spec fn contexts_of(sources: Seq<SourceFile>, symbol_limit: usize) -> Seq<
    FileContextModel,
> {
    contexts_among(sources, Set::full(), symbol_limit)
}

/// The files of a history that a pattern does not exclude.
pub open spec fn candidates(h: HistoryModel, pattern: Seq<char>) -> Set<Seq<char>> {
    Set::new(|f: Seq<char>| h.file_commits.contains_key(f) && !excluded(pattern, f))
}

/// The graph of a history and the text of its files under a configuration:
/// the contexts of the files that count, and the symbol graph built of
/// them.
pub open spec fn graph_of(h: HistoryModel, sources: Seq<SourceFile>, conf: GraphConfig) -> GraphView {
    let listed = candidates(h, conf.exclude_file_regex@);
    let contexts = contexts_among(sources, listed, conf.symbol_limit);
    GraphView {
        contexts,
        history: h,
        symbols: built(
            h,
            contexts,
            listed.len() as usize,
            conf.commit_size_limit_ratio,
            conf.def_limit,
            conf.symbol_len_limit,
        ),
    }
}

impl Graph {
    /// The graph of a repository without files.
    pub fn empty() -> (g: Graph)
        ensures
            g.wf(),
            g@.contexts.len() == 0,
            g@.symbols == GraphModel::empty(),
            g@.history.file_commits.dom() == Set::<Seq<char>>::empty(),
            g@.history.commit_files.dom() == Set::<Seq<char>>::empty(),
            g@.history.file_issues.dom() == Set::<Seq<char>>::empty(),
    {
        Graph::assemble(Vec::new(), history_new(), SymbolGraph::new())
    }

    /// The symbols of one file, or nothing for a file in a language that is
    /// not supported and for a file with `symbol_limit` symbols or more.
    pub fn extract_file_context(file_name: &String, file_content: &String, symbol_limit: usize) -> (r:
        Option<FileContext>)
        ensures
            r is Some <==> context_for(file_name@, file_content@, symbol_limit) is Some,
            r is Some ==> r.unwrap()@ == context_for(
                file_name@,
                file_content@,
                symbol_limit,
            ).unwrap(),
            language_of(file_name@) is None ==> r is None,
            r is Some ==> r.unwrap()@.path == file_name@ && r.unwrap()@.symbols.len()
                < symbol_limit,
            r is Some ==> forall|i: int|
                0 <= i < r.unwrap()@.symbols.len() ==> (#[trigger] r.unwrap()@.symbols[i]).file
                    == file_name@ && r.unwrap()@.symbols[i].kind != SymbolKind::NAMESPACE,
    {
        match extractor_for_file(file_name) {
            Some(extractor) => {
                let symbols = extractor.extract(file_name, file_content);
                proof {
                    lemma_symbols_in(extractor, file_name@, file_content@);
                }
                context_of(file_name, symbols, symbol_limit)
            },
            None => None,
        }
    }

    /// The context of each file that has one, in the order of the files.
    pub fn extract_file_contexts(sources: &Vec<SourceFile>, symbol_limit: usize) -> (r: Vec<
        FileContext,
    >)
        ensures
            r.deep_view() == contexts_of(sources@, symbol_limit),
            r.len() <= sources.len(),
            in_order_of(paths_of(r.deep_view()), source_paths(sources@)),
            forall|k: int, i: int|
                0 <= k < r.len() && 0 <= i < r.deep_view()[k].symbols.len() ==> (
                #[trigger] r.deep_view()[k].symbols[i]).file == r.deep_view()[k].path
                    && r.deep_view()[k].symbols[i].kind != SymbolKind::NAMESPACE,
            forall|k: int|
                0 <= k < r.len() ==> (#[trigger] r.deep_view()[k]).symbols.len() < symbol_limit
                    && language_of(r.deep_view()[k].path) is Some,
    {
        Graph::extract_among(sources, None, symbol_limit)
    }

    /// The symbols of each file that gives some, in the order of the files;
    /// where files are listed, those that are not are passed over.
    fn extract_among(sources: &Vec<SourceFile>, listed: Option<&NameIndex>, symbol_limit: usize) -> (r:
        Vec<FileContext>)
        requires
            listed is Some ==> listed.unwrap().wf(),
        ensures
            r.deep_view() == contexts_among(
                sources@,
                match listed {
                    Some(index) => index@.dom(),
                    None => Set::full(),
                },
                symbol_limit,
            ),
            r.len() <= sources.len(),
            in_order_of(paths_of(r.deep_view()), source_paths(sources@)),
            forall|k: int, i: int|
                0 <= k < r.len() && 0 <= i < r.deep_view()[k].symbols.len() ==> (
                #[trigger] r.deep_view()[k].symbols[i]).file == r.deep_view()[k].path
                    && r.deep_view()[k].symbols[i].kind != SymbolKind::NAMESPACE,
            forall|k: int|
                0 <= k < r.len() ==> (#[trigger] r.deep_view()[k]).symbols.len() < symbol_limit
                    && language_of(r.deep_view()[k].path) is Some,
            listed is Some ==> forall|k: int|
                0 <= k < r.len() ==> listed.unwrap()@.contains_key(
                    (#[trigger] r.deep_view()[k]).path,
                ),
    {
        let mut contexts: Vec<FileContext> = Vec::new();
        let mut i: usize = 0;
        let ghost among = match listed {
            Some(index) => index@.dom(),
            None => Set::full(),
        };
        assert(paths_of(contexts.deep_view()) =~= Seq::<Seq<char>>::empty());
        assert(contexts.deep_view() =~= Seq::<FileContextModel>::empty());
        while i < sources.len()
            invariant
                i <= sources.len(),
                contexts.len() <= i,
                in_order_of(paths_of(contexts.deep_view()), source_paths(sources@).take(i as int)),
                among == match listed {
                    Some(index) => index@.dom(),
                    None => Set::full(),
                },
                contexts.deep_view() == contexts_among(
                    sources@.take(i as int),
                    among,
                    symbol_limit,
                ),
                forall|k: int, j: int|
                    0 <= k < contexts.len() && 0 <= j < contexts.deep_view()[k].symbols.len() ==> (
                    #[trigger] contexts.deep_view()[k].symbols[j]).file
                        == contexts.deep_view()[k].path && contexts.deep_view()[k].symbols[j].kind
                        != SymbolKind::NAMESPACE,
                forall|k: int|
                    0 <= k < contexts.len() ==> (#[trigger] contexts.deep_view()[k]).symbols.len()
                        < symbol_limit && language_of(contexts.deep_view()[k].path) is Some,
                listed is Some ==> listed.unwrap().wf(),
                listed is Some ==> forall|k: int|
                    0 <= k < contexts.len() ==> listed.unwrap()@.contains_key(
                        (#[trigger] contexts.deep_view()[k]).path,
                    ),
            decreases sources.len() - i,
        {
            let ghost before = contexts.deep_view();
            let ghost within = source_paths(sources@).take(i + 1);
            proof {
                assert(within.drop_last() =~= source_paths(sources@).take(i as int));
                assert(within.last() == sources@[i as int].path@);
                assert(sources@.take(i + 1).drop_last() =~= sources@.take(i as int));
                assert(sources@.take(i + 1).last() == sources@[i as int]);
            }
            let counts = match listed {
                Some(index) => index.contains_key(&sources[i].path),
                None => true,
            };
            let found = if counts {
                Graph::extract_file_context(&sources[i].path, &sources[i].content, symbol_limit)
            } else {
                None
            };
            match found {
                Some(context) => {
                    contexts.push(context);
                    proof {
                        let after = contexts.deep_view();
                        assert(after =~= before.push(context@));
                        assert(paths_of(after).drop_last() =~= paths_of(before));
                        assert(paths_of(after).last() == within.last());
                        assert forall|k: int, j: int|
                            0 <= k < after.len() && 0 <= j < after[k].symbols.len() implies (
                        #[trigger] after[k].symbols[j]).file == after[k].path
                            && after[k].symbols[j].kind != SymbolKind::NAMESPACE by {
                            if k < before.len() {
                                assert(after[k] == before[k]);
                            }
                        }
                        assert forall|k: int| 0 <= k < after.len() implies (
                        #[trigger] after[k]).symbols.len() < symbol_limit && language_of(
                            after[k].path,
                        ) is Some by {
                            if k < before.len() {
                                assert(after[k] == before[k]);
                            }
                        }
                        if listed is Some {
                            assert forall|k: int| 0 <= k < after.len() implies listed.unwrap()@.contains_key(
                                (#[trigger] after[k]).path,
                            ) by {
                                if k < before.len() {
                                    assert(after[k] == before[k]);
                                }
                            }
                        }
                    }
                },
                None => {
                    proof {
                        lemma_in_order_longer(paths_of(before), within);
                    }
                },
            }
            i += 1;
        }
        assert(source_paths(sources@).take(sources.len() as int) =~= source_paths(sources@));
        assert(sources@.take(sources.len() as int) =~= sources@);
        contexts
    }

    /// The files of the history that `exclude_file_regex` does not exclude,
    /// in lexicographic order. A pattern that is not empty has to be a
    /// regular expression.
    pub fn candidate_files(
        history: &cupido::relation::graph::RelationGraph,
        exclude_file_regex: &String,
    ) -> (r: Result<Vec<String>, BuildError>)
        ensures
            r is Err <==> exclude_file_regex@.len() > 0 && !regex_compiles(exclude_file_regex@),
            r is Ok ==> are_candidates(
                r.unwrap().deep_view(),
                history_of(*history),
                exclude_file_regex@,
            ),
    {
        let filtering = !exclude_file_regex.as_str().is_empty();
        if filtering && !pattern_compiles(exclude_file_regex.as_str()) {
            return Err(BuildError::InvalidRegex);
        }
        let ghost h = history_of(*history);
        let ghost pattern = exclude_file_regex@;
        let found = history_files(history);
        let ghost raw = found.deep_view();
        let files = sort_names(found);
        proof {
            lemma_sorted_names(raw);
        }
        let ghost sorted = files.deep_view();
        let mut kept: Vec<String> = Vec::new();
        let ghost mut places: Seq<int> = Seq::empty();
        let mut i: usize = 0;
        while i < files.len()
            invariant
                i <= files.len(),
                sorted == files.deep_view(),
                pattern == exclude_file_regex@,
                filtering == (pattern.len() > 0),
                filtering ==> regex_compiles(pattern),
                places.len() == kept.len(),
                forall|k: int| 0 <= k < places.len() ==> 0 <= #[trigger] places[k] < i,
                forall|k: int|
                    0 <= k < places.len() ==> kept.deep_view()[k] == sorted[#[trigger] places[k]],
                forall|a: int, b: int|
                    0 <= a < b < places.len() ==> #[trigger] places[a] < #[trigger] places[b],
                forall|j: int|
                    0 <= j < i ==> (!excluded(pattern, #[trigger] sorted[j]) <==> places.contains(j)),
            decreases files.len() - i,
        {
            let leave_out = filtering && matches_pattern(
                exclude_file_regex.as_str(),
                files[i].as_str(),
            );
            assert(leave_out == excluded(pattern, sorted[i as int]));
            if !leave_out {
                let ghost before = kept.deep_view();
                let ghost old_places = places;
                kept.push(files[i].clone());
                proof {
                    places = places.push(i as int);
                    assert(kept.deep_view() =~= before.push(sorted[i as int]));
                    assert forall|j: int| 0 <= j < i + 1 implies (!excluded(
                        pattern,
                        #[trigger] sorted[j],
                    ) <==> places.contains(j)) by {
                        if j < i {
                            if old_places.contains(j) {
                                let k = choose|k: int|
                                    0 <= k < old_places.len() && old_places[k] == j;
                                assert(places[k] == j);
                            }
                            if places.contains(j) {
                                let k = choose|k: int| 0 <= k < places.len() && places[k] == j;
                                assert(old_places[k] == j);
                            }
                        } else {
                            assert(places[places.len() - 1] == j);
                        }
                    }
                }
            } else {
                proof {
                    assert forall|j: int| 0 <= j < i + 1 implies (!excluded(
                        pattern,
                        #[trigger] sorted[j],
                    ) <==> places.contains(j)) by {
                        if j == i && places.contains(j) {
                            let k = choose|k: int| 0 <= k < places.len() && places[k] == j;
                            assert(places[k] < i);
                        }
                    }
                }
            }
            i += 1;
        }
        proof {
            let out = kept.deep_view();
            lemma_sorted_chain(sorted);
            assert forall|k: int| 0 <= k < out.len() - 1 implies crate::order::lex_le(
                #[trigger] out[k],
                out[k + 1],
            ) by {
                assert(places[k] < places[k + 1]);
            }
            assert forall|a: int, b: int| 0 <= a < out.len() && 0 <= b < out.len() && a
                != b implies out[a] != out[b] by {
                if a < b {
                    assert(places[a] < places[b]);
                } else {
                    assert(places[b] < places[a]);
                }
            }
            assert forall|f: Seq<char>| #[trigger]
                out.contains(f) <==> h.file_commits.contains_key(f) && !excluded(pattern, f) by {
                if out.contains(f) {
                    let k = choose|k: int| 0 <= k < out.len() && out[k] == f;
                    assert(sorted[places[k]] == f);
                    assert(places.contains(places[k]));
                    assert(sorted.contains(f));
                    assert(raw.contains(f));
                }
                if h.file_commits.contains_key(f) && !excluded(pattern, f) {
                    assert(raw.contains(f));
                    assert(sorted.contains(f));
                    let j = choose|j: int| 0 <= j < sorted.len() && sorted[j] == f;
                    assert(places.contains(j));
                    let k = choose|k: int| 0 <= k < places.len() && places[k] == j;
                    assert(out[k] == f);
                }
            }
        }
        Ok(kept)
    }

    /// The graph of the files whose symbols are given. `total_files` is the
    /// number of files of the repository that were looked at, with or
    /// without symbols. In the graph every edge joins a file to a symbol
    /// that was found in it, or a reference to a definition of the same
    /// name.
    pub fn from_contexts(
        history: cupido::relation::graph::RelationGraph,
        total_files: usize,
        file_contexts: Vec<FileContext>,
        conf: &GraphConfig,
    ) -> (g: Graph)
        ensures
            g.wf(),
            crate::shape::sound(g@.symbols),
            crate::shape::drawn_from(g@.symbols, file_contexts.deep_view()),
            crate::shape::placed(g@.symbols, file_contexts.deep_view()),
            g@ == (GraphView {
                contexts: file_contexts.deep_view(),
                history: history_of(history),
                symbols: built(
                    history_of(history),
                    file_contexts.deep_view(),
                    total_files,
                    conf.commit_size_limit_ratio,
                    conf.def_limit,
                    conf.symbol_len_limit,
                ),
            }),
    {
        let (defs, refs, unique) = build_global_symbol_table(&file_contexts);
        let final_file_contexts = filter_pointless_symbols(
            &file_contexts,
            &defs,
            &refs,
            conf.symbol_len_limit,
        );
        let mut symbol_graph = seed(&final_file_contexts);
        let plan = plan_links(
            &history,
            &symbol_graph,
            &defs,
            &final_file_contexts,
            total_files,
            conf.commit_size_limit_ratio,
            conf.def_limit,
        );
        bind(&mut symbol_graph, &plan);
        fall_back(&mut symbol_graph, &final_file_contexts, &unique, &refs);
        proof {
            crate::shape::lemma_built_sound(
                history_of(history),
                file_contexts.deep_view(),
                total_files,
                conf.commit_size_limit_ratio,
                conf.def_limit,
                conf.symbol_len_limit,
            );
            crate::shape::lemma_built_drawn(
                history_of(history),
                file_contexts.deep_view(),
                total_files,
                conf.commit_size_limit_ratio,
                conf.def_limit,
                conf.symbol_len_limit,
            );
            crate::shape::lemma_built_placed(
                history_of(history),
                file_contexts.deep_view(),
                total_files,
                conf.commit_size_limit_ratio,
                conf.def_limit,
                conf.symbol_len_limit,
            );
        }
        Graph::assemble(file_contexts, history, symbol_graph)
    }

    /// The graph of a repository with the given history, from the text of
    /// its files. The files that count are those of the history that the
    /// configured pattern does not exclude; `sources` holds the text of
    /// those that could be read, and other sources are passed over. The
    /// build fails only on a pattern that is no regular expression.
    pub fn from(
        history: cupido::relation::graph::RelationGraph,
        sources: &Vec<SourceFile>,
        conf: &GraphConfig,
    ) -> (r: Result<Graph, BuildError>)
        ensures
            r is Err <==> conf.exclude_file_regex@.len() > 0 && !regex_compiles(
                conf.exclude_file_regex@,
            ),
            r is Ok ==> r.unwrap().wf() && r.unwrap()@.history == history_of(history)
                && in_order_of(paths_of(r.unwrap()@.contexts), source_paths(sources@)),
            r is Ok ==> crate::shape::sound(r.unwrap()@.symbols),
            r is Ok ==> forall|i: int|
                0 <= i < r.unwrap()@.symbols.nodes.len() && (
                #[trigger] r.unwrap()@.symbols.nodes[i]).symbol is Some
                    ==> r.unwrap()@.symbols.nodes[i].symbol.unwrap().kind != SymbolKind::NAMESPACE,
            r is Ok ==> forall|k: int|
                0 <= k < r.unwrap()@.contexts.len() ==> history_of(history).file_commits.contains_key(
                    (#[trigger] r.unwrap()@.contexts[k]).path,
                ) && !excluded(conf.exclude_file_regex@, r.unwrap()@.contexts[k].path),
            r is Ok ==> r.unwrap()@ == graph_of(history_of(history), sources@, *conf),
            r is Ok ==> forall|k: int, i: int|
                0 <= k < r.unwrap()@.contexts.len() && 0 <= i
                    < r.unwrap()@.contexts[k].symbols.len() ==> (
                #[trigger] r.unwrap()@.contexts[k].symbols[i]).file
                    == r.unwrap()@.contexts[k].path,
            r is Ok ==> forall|k: int|
                0 <= k < r.unwrap()@.contexts.len() ==> (
                #[trigger] r.unwrap()@.contexts[k]).symbols.len() < conf.symbol_limit
                    && language_of(r.unwrap()@.contexts[k].path) is Some,
            r is Ok ==> candidates(history_of(history), conf.exclude_file_regex@).finite()
                && candidates(history_of(history), conf.exclude_file_regex@).len() <= usize::MAX,
    {
        let files = match Graph::candidate_files(&history, &conf.exclude_file_regex) {
            Ok(files) => files,
            Err(e) => {
                return Err(e);
            },
        };
        let counted = crate::api::places_of(&files);
        let file_contexts = Graph::extract_among(sources, Some(&counted), conf.symbol_limit);
        let ghost h = history_of(history);
        let ghost contexts = file_contexts.deep_view();
        let g = Graph::from_contexts(history, files.len(), file_contexts, conf);
        proof {
            assert forall|i: int|
                0 <= i < g@.symbols.nodes.len() && (#[trigger] g@.symbols.nodes[i]).symbol is Some implies g@.symbols.nodes[i].symbol.unwrap().kind
                != SymbolKind::NAMESPACE by {
                let s = g@.symbols.nodes[i].symbol.unwrap();
                let c = choose|c: int|
                    0 <= c < contexts.len() && (#[trigger] contexts[c]).symbols.contains(s);
                let j = choose|j: int| 0 <= j < contexts[c].symbols.len() && contexts[c].symbols[j] == s;
                assert(contexts[c].symbols[j].kind != SymbolKind::NAMESPACE);
            }
            let names = files.deep_view();
            let listed = candidates(h, conf.exclude_file_regex@);
            assert(counted@.dom() =~= listed) by {
                assert forall|p: Seq<char>| counted@.dom().contains(p) == listed.contains(p) by {
                    assert(crate::api::slot_of(counted@, p) == crate::api::place_of(names, p));
                    crate::api::lemma_place_of(names, p);
                    if counted@.contains_key(p) {
                        assert(names.contains(p));
                    }
                }
            }
            assert(names.to_set() =~= listed);
            names.unique_seq_to_set();
            assert forall|k: int| 0 <= k < contexts.len() implies h.file_commits.contains_key(
                (#[trigger] contexts[k]).path,
            ) && !excluded(conf.exclude_file_regex@, contexts[k].path) by {
                let p = contexts[k].path;
                assert(counted@.contains_key(p));
                assert(crate::api::slot_of(counted@, p) == crate::api::place_of(names, p));
                crate::api::lemma_place_of(names, p);
                assert(names.contains(p));
            }
        }
        Ok(g)
    }
}

/// Names in the order of a list are in the order of a longer list.
proof fn lemma_in_order_longer(names: Seq<Seq<char>>, within: Seq<Seq<char>>)
    requires
        within.len() > 0,
        in_order_of(names, within.drop_last()),
    ensures
        in_order_of(names, within),
    decreases names.len() + within.len(),
{
    if names.len() > 0 && names.last() == within.last() {
        lemma_in_order_prefix(names, within.drop_last());
    }
}

/// If names are in the order of a list, so are all of them but the last.
proof fn lemma_in_order_prefix(names: Seq<Seq<char>>, within: Seq<Seq<char>>)
    requires
        names.len() > 0,
        in_order_of(names, within),
    ensures
        in_order_of(names.drop_last(), within),
    decreases names.len() + within.len(),
{
    if within.len() > 0 {
        if names.last() != within.last() {
            lemma_in_order_prefix(names, within.drop_last());
        }
        lemma_in_order_longer(names.drop_last(), within);
    }
}

/// In a sorted list every name is not after any later one.
proof fn lemma_sorted_chain(names: Seq<Seq<char>>)
    requires
        is_sorted(names),
    ensures
        forall|a: int, b: int|
            0 <= a <= b < names.len() ==> crate::order::lex_le(#[trigger] names[a], #[trigger] names[b]),
{
    assert forall|a: int, b: int| 0 <= a <= b < names.len() implies crate::order::lex_le(
        #[trigger] names[a],
        #[trigger] names[b],
    ) by {
        lemma_sorted_between(names, a, b);
    }
}

proof fn lemma_sorted_between(names: Seq<Seq<char>>, a: int, b: int)
    requires
        is_sorted(names),
        0 <= a <= b < names.len(),
    ensures
        crate::order::lex_le(names[a], names[b]),
    decreases b - a,
{
    if a == b {
        crate::order::lemma_lex_reflexive(names[a]);
    } else {
        lemma_sorted_between(names, a, b - 1);
        assert(crate::order::lex_le(names[b - 1], names[b - 1 + 1]));
        crate::order::lemma_lex_transitive(names[a], names[b - 1], names[b]);
    }
}

} // verus!

//! What holds of the library as a whole: laws that relate several of its
//! operations, proved over their models.

use crate::api::{
    distinct, elsewhere, files_of, incoming, interned, interned_all, lemma_distinct,
    lemma_elsewhere, lemma_pairs_of_kinds, outgoing, pairs_of_kinds, place_of, with_files,
    with_relation, with_relations, Interned, RelatedFileModel,
};
use crate::order::{lemma_sorted_names, sorted_names};
use crate::builder::{
    built, candidate_scores, candidates, contexts_among, graph_of, lemma_positive, positive,
    reference_links, scores_of,
};
use crate::cache::{cached, CacheEntryModel};
use crate::graph::{
    all_symbols, has_point, language_of, lemma_survivors, line_depth, name_len, pointed, pruned,
    survives, survivors, with_point, FileContextModel, GraphConfig, GraphView, SourceFile,
};
use crate::shape::{edge_is_placed, lemma_built_drawn, lemma_built_placed, lemma_symbols_among};
use crate::ungraph::incident;
use crate::history::HistoryModel;
use crate::model::{of_kind, GraphModel};
use crate::order::order_desc;
use crate::extractor::{captured_by, captured_symbols, lemma_symbols_in, symbols_in, Extractor};
use crate::rule::rule_of;
use crate::scope::{
    after_last, dedup_adjacent, fqn, join_dots, lemma_dedup_last, scope_path, ScopeModel,
};
use crate::syntax::grammar_of;
use crate::symbol::{SymbolKind, SymbolModel};
use crate::text::{decimal_digits, digit_char};
use crate::table::{lemma_tabled, row_of, tabled};
use crate::weight::{lemma_no_common_commit, link_score, small_commits, Ratio};
use vstd::prelude::*;

verus! {

/// A decimal number holds no colon and has a digit.
pub proof fn lemma_decimal_plain(n: nat)
    ensures
        !decimal_digits(n).contains(':'),
        decimal_digits(n).len() >= 1,
        n >= 10 ==> decimal_digits(n).len() >= 2,
    decreases n,
{
    if n >= 10 {
        lemma_decimal_plain(n / 10);
        let d = decimal_digits(n);
        assert forall|i: int| 0 <= i < d.len() implies d[i] != ':' by {
            if i < d.len() - 1 {
                assert(decimal_digits(n / 10)[i] == d[i]);
            }
        }
    }
}

/// Two numbers with the same decimal digits are the same number.
pub proof fn lemma_decimal_injective(a: nat, b: nat)
    requires
        decimal_digits(a) == decimal_digits(b),
    ensures
        a == b,
    decreases a,
{
    lemma_decimal_plain(a);
    lemma_decimal_plain(b);
    if a >= 10 || b >= 10 {
        assert(a >= 10 && b >= 10);
        let da = decimal_digits(a / 10);
        let db = decimal_digits(b / 10);
        assert(decimal_digits(a).last() == digit_char(a % 10));
        assert(decimal_digits(b).last() == digit_char(b % 10));
        assert(decimal_digits(a).drop_last() =~= da);
        assert(decimal_digits(b).drop_last() =~= db);
        lemma_decimal_injective(a / 10, b / 10);
    } else {
        assert(decimal_digits(a)[0] == digit_char(a));
        assert(decimal_digits(b)[0] == digit_char(b));
    }
}

/// A text that ends in a colon and a part without colons tells the two
/// apart: the part is what follows the last colon.
pub proof fn lemma_split_last(head: Seq<char>, tail: Seq<char>)
    requires
        !tail.contains(':'),
    ensures
        after_last(head + seq![':'] + tail, ':') == head.len() + 1,
        (head + seq![':'] + tail).skip(head.len() as int + 1) == tail,
        (head + seq![':'] + tail).take(head.len() as int) == head,
{
    let front = head + seq![':'];
    assert(front.last() == ':');
    lemma_after_last_suffix(front, tail, ':');
    assert((front + tail).skip(head.len() as int + 1) =~= tail);
    assert((front + tail).take(head.len() as int) =~= head);
}

/// Two texts that end in a colon and a part without colons are equal only
/// if both their parts are.
pub proof fn lemma_split_equal(h1: Seq<char>, t1: Seq<char>, h2: Seq<char>, t2: Seq<char>)
    requires
        !t1.contains(':'),
        !t2.contains(':'),
        h1 + seq![':'] + t1 == h2 + seq![':'] + t2,
    ensures
        h1 == h2,
        t1 == t2,
{
    lemma_split_last(h1, t1);
    lemma_split_last(h2, t2);
}

/// The tag of a kind holds no colon, and kinds have different tags.
pub proof fn lemma_labels(a: SymbolKind, b: SymbolKind)
    ensures
        !a.label_spec().contains(':'),
        a.label_spec() == b.label_spec() ==> a == b,
{
    reveal_strlit("DEF");
    reveal_strlit("REF");
    reveal_strlit("NAMESPACE");
    reveal_strlit("IMPORT");
    assert(a.label_spec()[0] == b.label_spec()[0] ==> a == b);
}

/// The identifier of a symbol tells its file, its name, its kind and its
/// start byte: two symbols with the same identifier agree in all four.
pub proof fn lemma_id_injective(a: SymbolModel, b: SymbolModel)
    requires
        a.id() == b.id(),
    ensures
        a.file == b.file,
        a.name == b.name,
        a.kind == b.kind,
        a.range.start_byte == b.range.start_byte,
{
    reveal_strlit(":");
    assert(":"@ =~= seq![':']);
    lemma_decimal_plain(a.name.len());
    lemma_decimal_plain(b.name.len());
    lemma_decimal_plain(a.range.start_byte as nat);
    lemma_decimal_plain(b.range.start_byte as nat);
    lemma_labels(a.kind, b.kind);
    lemma_labels(b.kind, a.kind);
    let a3 = a.file + seq![':'] + a.name;
    let b3 = b.file + seq![':'] + b.name;
    let a2 = a3 + seq![':'] + a.kind.label_spec();
    let b2 = b3 + seq![':'] + b.kind.label_spec();
    let a1 = a2 + seq![':'] + decimal_digits(a.range.start_byte as nat);
    let b1 = b2 + seq![':'] + decimal_digits(b.range.start_byte as nat);
    assert(a.id() =~= a1 + seq![':'] + decimal_digits(a.name.len()));
    assert(b.id() =~= b1 + seq![':'] + decimal_digits(b.name.len()));
    lemma_split_equal(a1, decimal_digits(a.name.len()), b1, decimal_digits(b.name.len()));
    lemma_decimal_injective(a.name.len(), b.name.len());
    lemma_split_equal(
        a2,
        decimal_digits(a.range.start_byte as nat),
        b2,
        decimal_digits(b.range.start_byte as nat),
    );
    lemma_decimal_injective(a.range.start_byte as nat, b.range.start_byte as nat);
    lemma_split_equal(a3, a.kind.label_spec(), b3, b.kind.label_spec());
    // the names are equally long, so they end the same text at the same place
    assert(a.name =~= a3.skip(a3.len() - a.name.len()));
    assert(b.name =~= b3.skip(b3.len() - b.name.len()));
    assert(a.file =~= a3.take(a3.len() - a.name.len() - 1));
    assert(b.file =~= b3.take(b3.len() - b.name.len() - 1));
}

/// Adding a file a second time changes nothing.
pub proof fn lemma_add_file_idempotent(m: GraphModel, path: Seq<char>)
    ensures
        m.add_file(path).add_file(path) == m.add_file(path),
{
}

/// Adding a symbol a second time changes nothing.
pub proof fn lemma_add_symbol_idempotent(m: GraphModel, s: SymbolModel)
    ensures
        m.add_symbol(s).add_symbol(s) == m.add_symbol(s),
{
}

/// Linking a file to a symbol a second time changes nothing.
pub proof fn lemma_link_file_idempotent(m: GraphModel, path: Seq<char>, id: Seq<char>)
    ensures
        m.link_file_to_symbol(path, id).link_file_to_symbol(path, id) == m.link_file_to_symbol(
            path,
            id,
        ),
{
    if m.files.contains_key(path) && m.symbols.contains_key(id) {
        lemma_link_idempotent(m, m.files[path], m.symbols[id]);
    }
}

/// Linking two symbols a second time changes nothing, in whichever order
/// the two are given.
pub proof fn lemma_link_symbols_idempotent(m: GraphModel, a: Seq<char>, b: Seq<char>)
    ensures
        m.link_symbol_to_symbol(a, b).link_symbol_to_symbol(a, b) == m.link_symbol_to_symbol(a, b),
        m.link_symbol_to_symbol(a, b).link_symbol_to_symbol(b, a) == m.link_symbol_to_symbol(a, b),
{
    if m.symbols.contains_key(a) && m.symbols.contains_key(b) {
        lemma_link_idempotent(m, m.symbols[a], m.symbols[b]);
    }
}

/// Joining two nodes a second time changes nothing.
pub proof fn lemma_link_idempotent(m: GraphModel, a: usize, b: usize)
    ensures
        m.link(a, b).link(a, b) == m.link(a, b),
        m.link(a, b).link(b, a) == m.link(a, b),
{
    let once = m.link(a, b);
    if m.linked(a, b) {
        let i = choose|i: int|
            0 <= i < m.edges.len() && crate::ungraph::joins(#[trigger] m.edges[i], a, b);
        assert(crate::ungraph::joins(once.edges[i], b, a));
    } else if m.has_edge_room() {
        assert(crate::ungraph::joins(once.edges[m.edges.len() as int], a, b));
        assert(crate::ungraph::joins(once.edges[m.edges.len() as int], b, a));
    }
}

/// Raising the weight between two symbols that no edge joins changes
/// nothing.
pub proof fn lemma_enhance_without_edge(m: GraphModel, a: Seq<char>, b: Seq<char>, delta: usize)
    requires
        !m.symbols_linked(a, b),
    ensures
        m.enhance_symbol_to_symbol(a, b, delta) == m,
{
}

/// Raising a weight never lowers it, and changes neither the nodes nor
/// which nodes are joined.
pub proof fn lemma_enhance_raises(m: GraphModel, a: Seq<char>, b: Seq<char>, delta: usize)
    ensures
        m.enhance_symbol_to_symbol(a, b, delta).nodes == m.nodes,
        m.enhance_symbol_to_symbol(a, b, delta).edges.len() == m.edges.len(),
        forall|i: int|
            0 <= i < m.edges.len() ==> (#[trigger] m.enhance_symbol_to_symbol(
                a,
                b,
                delta,
            ).edges[i]).weight >= m.edges[i].weight && m.enhance_symbol_to_symbol(
                a,
                b,
                delta,
            ).edges[i].a == m.edges[i].a && m.enhance_symbol_to_symbol(a, b, delta).edges[i].b
                == m.edges[i].b,
{
    if m.symbols_linked(a, b) {
        let e = m.edge_between(m.symbols[a], m.symbols[b]);
        assert(0 <= e < m.edges.len());
    }
}

/// No file is related to itself.
pub proof fn lemma_related_files_exclude_self(m: GraphModel, file: Seq<char>)
    ensures
        forall|k: int|
            0 <= k < m.related_files(file).len() ==> (#[trigger] m.related_files(file)[k]).name
                != file,
{
    if m.files.contains_key(file) {
        let met = m.relations_met(file);
        let obs = m.observed(file);
        let scores = Seq::new(met.len(), |i: int| met[i].score);
        lemma_elsewhere(
            incoming(m, m.list_definitions(file), m.list_definitions(file).len() as usize)
                + outgoing(m, m.list_references(file)),
            file,
        );
        lemma_distinct(files_of(obs));
        let names = distinct(files_of(obs));
        assert forall|i: int| 0 <= i < met.len() implies (#[trigger] met[i]).name != file by {
            assert(names.contains(names[i]));
            assert(files_of(obs).contains(names[i]));
            let w = choose|w: int| 0 <= w < files_of(obs).len() && files_of(obs)[w] == names[i];
            assert(obs[w].0.file == names[i]);
        }
        lemma_order_in_range(scores);
        let order = order_desc(scores);
        assert forall|k: int| 0 <= k < m.related_files(file).len() implies (
        #[trigger] m.related_files(file)[k]).name != file by {
            assert(m.related_files(file)[k] == met[order[k] as int]);
            assert(0 <= order[k] < met.len());
        }
    }
}

/// A ranking has as many places as there are scores.
pub proof fn lemma_order_len(scores: Seq<usize>)
    ensures
        order_desc(scores).len() == scores.len(),
    decreases scores.len(),
{
    if scores.len() > 0 {
        lemma_order_len(scores.drop_last());
        lemma_insert_len(
            order_desc(scores.drop_last()),
            scores,
            (scores.len() - 1) as usize,
        );
    }
}

proof fn lemma_insert_len(order: Seq<usize>, scores: Seq<usize>, x: usize)
    ensures
        crate::order::insert_ranked(order, scores, x).len() == order.len() + 1,
        forall|k: int|
            0 <= k < crate::order::insert_ranked(order, scores, x).len() ==> (
            #[trigger] crate::order::insert_ranked(order, scores, x)[k]) == x || order.contains(
                crate::order::insert_ranked(order, scores, x)[k],
            ),
    decreases order.len(),
{
    if order.len() > 0 && scores[order.last() as int] < scores[x as int] {
        let rest = order.drop_last();
        lemma_insert_len(rest, scores, x);
        let out = crate::order::insert_ranked(order, scores, x);
        assert forall|k: int| 0 <= k < out.len() implies (#[trigger] out[k]) == x || order.contains(
            out[k],
        ) by {
            if k < out.len() - 1 {
                let inner = crate::order::insert_ranked(rest, scores, x);
                assert(out[k] == inner[k]);
                if inner[k] != x {
                    let j = choose|j: int| 0 <= j < rest.len() && rest[j] == inner[k];
                    assert(order[j] == inner[k]);
                }
            } else {
                assert(order[order.len() - 1] == out[k]);
            }
        }
    } else {
        let out = crate::order::insert_ranked(order, scores, x);
        assert forall|k: int| 0 <= k < out.len() implies (#[trigger] out[k]) == x || order.contains(
            out[k],
        ) by {
            if k < order.len() {
                assert(order[k] == out[k]);
            }
        }
    }
}

/// Every place of a ranking is a place of the scores.
pub proof fn lemma_order_in_range(scores: Seq<usize>)
    ensures
        order_desc(scores).len() == scores.len(),
        forall|k: int|
            0 <= k < order_desc(scores).len() ==> 0 <= (#[trigger] order_desc(scores)[k])
                < scores.len(),
    decreases scores.len(),
{
    lemma_order_len(scores);
    if scores.len() > 0 {
        let rest = scores.drop_last();
        lemma_order_in_range(rest);
        let x = (scores.len() - 1) as usize;
        lemma_insert_len(order_desc(rest), scores, x);
        let out = order_desc(scores);
        assert forall|k: int| 0 <= k < out.len() implies 0 <= (#[trigger] out[k]) < scores.len() by {
            if out[k] != x {
                let j = choose|j: int| 0 <= j < order_desc(rest).len() && order_desc(rest)[j] == out[k];
                assert(order_desc(rest)[j] < rest.len());
            } else {
                // the last place is a place, unless there are more scores
                // than a machine number counts
                lemma_last_place(scores);
            }
        }
    }
}

proof fn lemma_last_place(scores: Seq<usize>)
    requires
        scores.len() > 0,
    ensures
        ((scores.len() - 1) as usize) < scores.len(),
{
}

/// What is related to a definition is a reference or an import; what is
/// related to a reference is a definition.
pub proof fn lemma_related_symbols_kinds(g: GraphView, s: SymbolModel)
    ensures
        s.kind == SymbolKind::DEF ==> forall|i: int|
            0 <= i < g.related_symbols(s).len() ==> (#[trigger] g.related_symbols(s)[i]).0.kind
                == SymbolKind::REF || g.related_symbols(s)[i].0.kind == SymbolKind::IMPORT,
        s.kind == SymbolKind::REF ==> forall|i: int|
            0 <= i < g.related_symbols(s).len() ==> (#[trigger] g.related_symbols(s)[i]).0.kind
                == SymbolKind::DEF,
{
    lemma_pairs_of_kinds(g.symbols.symbol_neighbors(s.id()), SymbolKind::REF, SymbolKind::IMPORT);
    lemma_pairs_of_kinds(g.symbols.symbol_neighbors(s.id()), SymbolKind::DEF, SymbolKind::DEF);
}

/// What the filter keeps has a point, and it keeps what has one.
pub proof fn lemma_with_point(
    symbols: Seq<SymbolModel>,
    defs: Map<Seq<char>, Seq<SymbolModel>>,
    refs: Map<Seq<char>, Seq<SymbolModel>>,
    limit: usize,
)
    ensures
        forall|s: SymbolModel| #[trigger]
            with_point(symbols, defs, refs, limit).contains(s) <==> symbols.contains(s) && has_point(
                s,
                defs,
                refs,
                limit,
            ),
    decreases symbols.len(),
{
    if symbols.len() > 0 {
        let rest = symbols.drop_last();
        lemma_with_point(rest, defs, refs, limit);
        let kept = with_point(symbols, defs, refs, limit);
        let before = with_point(rest, defs, refs, limit);
        assert forall|s: SymbolModel| #[trigger]
            kept.contains(s) <==> symbols.contains(s) && has_point(s, defs, refs, limit) by {
            if kept.contains(s) {
                let k = choose|k: int| 0 <= k < kept.len() && kept[k] == s;
                if k < before.len() {
                    assert(before[k] == s);
                    assert(before.contains(s));
                    let i = choose|i: int| 0 <= i < rest.len() && rest[i] == s;
                    assert(symbols[i] == s);
                } else {
                    assert(symbols[symbols.len() - 1] == s);
                }
            }
            if symbols.contains(s) && has_point(s, defs, refs, limit) {
                let i = choose|i: int| 0 <= i < symbols.len() && symbols[i] == s;
                if i < rest.len() {
                    assert(rest[i] == s);
                    assert(before.contains(s));
                    let k = choose|k: int| 0 <= k < before.len() && before[k] == s;
                    assert(kept[k] == s);
                } else {
                    assert(kept[kept.len() - 1] == s);
                }
            }
        }
    }
}

/// After the filter for pointless symbols, every definition has a reference
/// of its name in some file, and every reference a definition. A reference
/// whose name is longer than the limit is kept exactly if a definition
/// bears its name, and a definition exactly if a reference does.
pub proof fn lemma_pointless_filter(contexts: Seq<FileContextModel>, limit: usize, i: int, s: SymbolModel)
    requires
        0 <= i < contexts.len(),
        contexts[i].symbols.contains(s),
    ensures
        ({
            let all = all_symbols(contexts);
            let kept = pointed(
                contexts,
                tabled(all, SymbolKind::DEF),
                tabled(all, SymbolKind::REF),
                limit,
            )[i].symbols;
            &&& kept.contains(s) && s.kind == SymbolKind::DEF ==> exists|k: int|
                0 <= k < all.len() && (#[trigger] all[k]).kind == SymbolKind::REF && all[k].name
                    == s.name
            &&& kept.contains(s) && s.kind == SymbolKind::REF ==> exists|k: int|
                0 <= k < all.len() && (#[trigger] all[k]).kind == SymbolKind::DEF && all[k].name
                    == s.name
            &&& s.kind == SymbolKind::REF && name_len(s.name) > limit ==> (kept.contains(s)
                <==> exists|k: int|
                0 <= k < all.len() && (#[trigger] all[k]).kind == SymbolKind::DEF && all[k].name
                    == s.name)
            &&& s.kind == SymbolKind::DEF && name_len(s.name) > limit ==> (kept.contains(s)
                <==> exists|k: int|
                0 <= k < all.len() && (#[trigger] all[k]).kind == SymbolKind::REF && all[k].name
                    == s.name)
        }),
{
    let all = all_symbols(contexts);
    let defs = tabled(all, SymbolKind::DEF);
    let refs = tabled(all, SymbolKind::REF);
    lemma_tabled(all, SymbolKind::DEF);
    lemma_tabled(all, SymbolKind::REF);
    lemma_with_point(contexts[i].symbols, defs, refs, limit);
    assert(defs.contains_key(s.name) <==> exists|k: int|
        0 <= k < all.len() && (#[trigger] all[k]).kind == SymbolKind::DEF && all[k].name == s.name);
    assert(refs.contains_key(s.name) <==> exists|k: int|
        0 <= k < all.len() && (#[trigger] all[k]).kind == SymbolKind::REF && all[k].name == s.name);
}

/// After pruning no symbol is a scope, and with a level above zero no
/// definition lies in that many scopes or more.
pub proof fn lemma_pruned(symbols: Seq<SymbolModel>, level: usize)
    ensures
        forall|i: int|
            0 <= i < pruned(symbols, level).len() ==> (#[trigger] pruned(symbols, level)[i]).kind
                != SymbolKind::NAMESPACE,
        level > 0 ==> forall|i: int|
            0 <= i < pruned(symbols, level).len() && (#[trigger] pruned(symbols, level)[i]).kind
                == SymbolKind::DEF ==> line_depth(
                of_kind(symbols, SymbolKind::NAMESPACE),
                pruned(symbols, level)[i].range.start_point.row,
            ) < level,
{
    lemma_survivors(symbols, of_kind(symbols, SymbolKind::NAMESPACE), level);
}

/// A reference is linked only to definitions that bear its own name: a
/// definition of the same simple name in another scope, which has another
/// fully-qualified name, is never among them.
pub proof fn lemma_links_keep_names(
    h: HistoryModel,
    m: GraphModel,
    symbols: Seq<SymbolModel>,
    from: Seq<char>,
    r: SymbolModel,
    total: usize,
    ratio: Ratio,
    def_limit: usize,
)
    ensures
        forall|k: int|
            0 <= k < reference_links(
                h,
                m,
                tabled(symbols, SymbolKind::DEF),
                from,
                r,
                total,
                ratio,
                def_limit,
            ).len() ==> (#[trigger] reference_links(
                h,
                m,
                tabled(symbols, SymbolKind::DEF),
                from,
                r,
                total,
                ratio,
                def_limit,
            )[k]).definition.name == r.name && reference_links(
                h,
                m,
                tabled(symbols, SymbolKind::DEF),
                from,
                r,
                total,
                ratio,
                def_limit,
            )[k].definition.kind == SymbolKind::DEF && reference_links(
                h,
                m,
                tabled(symbols, SymbolKind::DEF),
                from,
                r,
                total,
                ratio,
                def_limit,
            )[k].reference == r,
{
    let defs = tabled(symbols, SymbolKind::DEF);
    let cands = row_of(defs, r.name);
    let kept = positive(cands, candidate_scores(h, m, from, cands, total, ratio));
    let links = reference_links(h, m, defs, from, r, total, ratio, def_limit);
    lemma_tabled(symbols, SymbolKind::DEF);
    lemma_positive(cands, candidate_scores(h, m, from, cands, total, ratio));
    lemma_order_in_range(scores_of(kept));
    let order = order_desc(scores_of(kept));
    assert forall|k: int| 0 <= k < links.len() implies (#[trigger] links[k]).definition.name
        == r.name && links[k].definition.kind == SymbolKind::DEF && links[k].reference == r by {
        let d = kept[order[k] as int].0;
        assert(links[k].definition == d);
        assert(cands.contains(d));
        let j = choose|j: int| 0 <= j < cands.len() && cands[j] == d;
        assert(defs.contains_key(r.name));
        assert(defs[r.name][j] == d);
    }
}

/// The segment after the last dot of a dotted name is its last segment,
/// and what stands before that dot is the name of the other segments.
pub proof fn lemma_join_last(parts: Seq<Seq<char>>)
    requires
        parts.len() > 0,
        forall|i: int| 0 <= i < parts.len() ==> !(#[trigger] parts[i]).contains('.'),
    ensures
        after_last(join_dots(parts), '.') == join_dots(parts).len() - parts.last().len(),
        join_dots(parts).skip(after_last(join_dots(parts), '.')) == parts.last(),
        parts.len() > 1 ==> after_last(join_dots(parts), '.') > 0 && join_dots(parts).take(
            after_last(join_dots(parts), '.') - 1,
        ) == join_dots(parts.drop_last()),
        parts.len() == 1 ==> after_last(join_dots(parts), '.') == 0,
{
    let joined = join_dots(parts);
    let last = parts.last();
    let head = if parts.len() == 1 {
        Seq::<char>::empty()
    } else {
        join_dots(parts.drop_last()) + seq!['.']
    };
    assert(joined =~= head + last);
    assert(!last.contains('.'));
    lemma_after_last_suffix(head, last, '.');
    if parts.len() > 1 {
        assert(head.last() == '.');
        assert(joined.take(head.len() - 1) =~= join_dots(parts.drop_last()));
    }
    assert(joined.skip(head.len() as int) =~= last);
}

/// What follows the last `c` of a text does not move when a text without
/// `c` is put behind it.
proof fn lemma_after_last_suffix(head: Seq<char>, tail: Seq<char>, c: char)
    requires
        !tail.contains(c),
        head.len() == 0 || head.last() == c,
    ensures
        after_last(head + tail, c) == head.len(),
    decreases tail.len(),
{
    let all = head + tail;
    if tail.len() == 0 {
        assert(all =~= head);
    } else {
        assert(all.last() == tail.last());
        assert(tail[tail.len() - 1] == tail.last());
        assert(all.drop_last() =~= head + tail.drop_last());
        assert forall|i: int| 0 <= i < tail.drop_last().len() implies tail.drop_last()[i] != c by {
            assert(tail[i] == tail.drop_last()[i]);
        }
        lemma_after_last_suffix(head, tail.drop_last(), c);
    }
}

/// Two different scope paths give different fully-qualified names: the
/// dotted name tells the segments apart, as long as no segment holds a dot.
pub proof fn lemma_join_dots_injective(a: Seq<Seq<char>>, b: Seq<Seq<char>>)
    requires
        a.len() > 0,
        b.len() > 0,
        forall|i: int| 0 <= i < a.len() ==> !(#[trigger] a[i]).contains('.'),
        forall|i: int| 0 <= i < b.len() ==> !(#[trigger] b[i]).contains('.'),
        join_dots(a) == join_dots(b),
    ensures
        a == b,
    decreases a.len(),
{
    lemma_join_last(a);
    lemma_join_last(b);
    assert(a.last() == b.last());
    if a.len() == 1 || b.len() == 1 {
        assert(a.len() == 1 && b.len() == 1);
        assert(a =~= b);
    } else {
        let x = a.drop_last();
        let y = b.drop_last();
        assert forall|i: int| 0 <= i < x.len() implies !(#[trigger] x[i]).contains('.') by {
            assert(x[i] == a[i]);
        }
        assert forall|i: int| 0 <= i < y.len() implies !(#[trigger] y[i]).contains('.') by {
            assert(y[i] == b[i]);
        }
        lemma_join_dots_injective(x, y);
        assert(a =~= x.push(a.last()));
        assert(b =~= y.push(b.last()));
    }
}

/// Two files without a small commit in common have the score zero,
/// whatever else holds of them.
pub proof fn lemma_zero_intersection(
    h: HistoryModel,
    from: Seq<char>,
    to: Seq<char>,
    total: usize,
    ratio: Ratio,
    refs: usize,
)
    requires
        forall|c: Seq<char>|
            !(#[trigger] small_commits(h, h.commits_of(from), total, ratio).contains(c)
                && small_commits(h, h.commits_of(to), total, ratio).contains(c)),
    ensures
        link_score(h, from, to, total, ratio, refs) == 0,
{
    let mine = small_commits(h, h.commits_of(from), total, ratio);
    let theirs = small_commits(h, h.commits_of(to), total, ratio);
    assert forall|i: int| 0 <= i < mine.len() implies !theirs.contains(#[trigger] mine[i]) by {
        assert(mine.contains(mine[i]));
    }
    lemma_no_common_commit(h, mine, theirs, total);
}

/// Whether the numbers of an index are tidy: relations and definitions
/// have the numbers from `start` up to the next free one, each once.
pub open spec fn tidy(state: Interned, start: usize) -> bool {
    &&& state.nodes.len() == state.keys.len()
    &&& start + state.relations.len() + state.nodes.len() == state.next
    &&& forall|i: int|
        0 <= i < state.relations.len() ==> start <= (#[trigger] state.relations[i]).id < state.next
    &&& forall|i: int| 0 <= i < state.nodes.len() ==> start <= (#[trigger] state.nodes[i]).id < state.next
    &&& forall|i: int, j: int|
        0 <= i < j < state.relations.len() ==> (#[trigger] state.relations[i]).id != (
        #[trigger] state.relations[j]).id
    &&& forall|i: int, j: int|
        0 <= i < j < state.nodes.len() ==> (#[trigger] state.nodes[i]).id != (
        #[trigger] state.nodes[j]).id
    &&& forall|i: int, j: int|
        0 <= i < state.relations.len() && 0 <= j < state.nodes.len() ==> (
        #[trigger] state.relations[i]).id != (#[trigger] state.nodes[j]).id
}

proof fn lemma_interned_tidy(state: Interned, s: SymbolModel, start: usize)
    requires
        state.nodes.len() == state.keys.len(),
    ensures
        state.next <= interned(state, s).next,
        interned(state, s).nodes.len() == interned(state, s).keys.len(),
        tidy(state, start) && interned(state, s).next < usize::MAX ==> tidy(interned(state, s), start),
{
    if tidy(state, start) && interned(state, s).next < usize::MAX && place_of(state.keys, s.id()) is None {
        let after = interned(state, s);
        assert forall|i: int| 0 <= i < after.nodes.len() implies start <= (
        #[trigger] after.nodes[i]).id < after.next by {
            if i < state.nodes.len() {
                assert(after.nodes[i] == state.nodes[i]);
            }
        }
        assert forall|i: int, j: int| 0 <= i < j < after.nodes.len() implies (
        #[trigger] after.nodes[i]).id != (#[trigger] after.nodes[j]).id by {
            assert(after.nodes[i] == state.nodes[i]);
            if j < state.nodes.len() {
                assert(after.nodes[j] == state.nodes[j]);
            }
        }
        assert forall|i: int, j: int|
            0 <= i < after.relations.len() && 0 <= j < after.nodes.len() implies (
        #[trigger] after.relations[i]).id != (#[trigger] after.nodes[j]).id by {
            if j < state.nodes.len() {
                assert(after.nodes[j] == state.nodes[j]);
            }
        }
    }
}

proof fn lemma_interned_all_tidy(state: Interned, symbols: Seq<(SymbolModel, usize)>, start: usize)
    requires
        state.nodes.len() == state.keys.len(),
    ensures
        state.next <= interned_all(state, symbols).next,
        interned_all(state, symbols).nodes.len() == interned_all(state, symbols).keys.len(),
        interned_all(state, symbols).relations == state.relations,
        tidy(state, start) && interned_all(state, symbols).next < usize::MAX ==> tidy(
            interned_all(state, symbols),
            start,
        ),
    decreases symbols.len(),
{
    if symbols.len() > 0 {
        lemma_interned_all_tidy(state, symbols.drop_last(), start);
        let before = interned_all(state, symbols.drop_last());
        lemma_interned_tidy(before, symbols.last().0, start);
    }
}

proof fn lemma_with_relation_tidy(
    state: Interned,
    files: Seq<Seq<char>>,
    src: usize,
    related: RelatedFileModel,
    start: usize,
)
    requires
        state.nodes.len() == state.keys.len(),
    ensures
        state.next <= with_relation(state, files, src, related).next,
        with_relation(state, files, src, related).nodes.len() == with_relation(
            state,
            files,
            src,
            related,
        ).keys.len(),
        tidy(state, start) && with_relation(state, files, src, related).next < usize::MAX ==> tidy(
            with_relation(state, files, src, related),
            start,
        ),
{
    if place_of(files, related.name) is Some {
        lemma_interned_all_tidy(state, related.related_symbols, start);
        let mid = interned_all(state, related.related_symbols);
        let after = with_relation(state, files, src, related);
        if tidy(state, start) && after.next < usize::MAX {
            assert forall|i: int| 0 <= i < after.relations.len() implies start <= (
            #[trigger] after.relations[i]).id < after.next by {
                if i < mid.relations.len() {
                    assert(after.relations[i] == mid.relations[i]);
                }
            }
            assert forall|i: int, j: int| 0 <= i < j < after.relations.len() implies (
            #[trigger] after.relations[i]).id != (#[trigger] after.relations[j]).id by {
                assert(after.relations[i] == mid.relations[i]);
                if j < mid.relations.len() {
                    assert(after.relations[j] == mid.relations[j]);
                }
            }
            assert forall|i: int, j: int|
                0 <= i < after.relations.len() && 0 <= j < after.nodes.len() implies (
            #[trigger] after.relations[i]).id != (#[trigger] after.nodes[j]).id by {
                if i < mid.relations.len() {
                    assert(after.relations[i] == mid.relations[i]);
                }
            }
        }
    }
}

proof fn lemma_with_relations_tidy(
    state: Interned,
    files: Seq<Seq<char>>,
    src: usize,
    related: Seq<RelatedFileModel>,
    start: usize,
)
    requires
        state.nodes.len() == state.keys.len(),
    ensures
        state.next <= with_relations(state, files, src, related).next,
        with_relations(state, files, src, related).nodes.len() == with_relations(
            state,
            files,
            src,
            related,
        ).keys.len(),
        tidy(state, start) && with_relations(state, files, src, related).next < usize::MAX ==> tidy(
            with_relations(state, files, src, related),
            start,
        ),
    decreases related.len(),
{
    if related.len() > 0 {
        lemma_with_relations_tidy(state, files, src, related.drop_last(), start);
        lemma_with_relation_tidy(
            with_relations(state, files, src, related.drop_last()),
            files,
            src,
            related.last(),
            start,
        );
    }
}

proof fn lemma_with_files_tidy(m: GraphModel, files: Seq<Seq<char>>, n: nat)
    requires
        n <= files.len() <= usize::MAX,
    ensures
        with_files(m, files, n).nodes.len() == with_files(m, files, n).keys.len(),
        with_files(m, files, n).next < usize::MAX ==> tidy(
            with_files(m, files, n),
            files.len() as usize,
        ),
    decreases n,
{
    if n > 0 {
        lemma_with_files_tidy(m, files, (n - 1) as nat);
        lemma_with_relations_tidy(
            with_files(m, files, (n - 1) as nat),
            files,
            (n - 1) as usize,
            m.related_files(files[n - 1]),
            files.len() as usize,
        );
    }
}

/// The numbers of the index of all relations are dense: the files have
/// the numbers from zero, one after the other, and the relations and
/// definitions share the numbers that follow, each number given once. This
/// holds as long as the numbers do not run out.
pub proof fn lemma_index_dense(g: GraphView)
    requires
        g.files().len() <= usize::MAX,
        g.list_all_relations().file_nodes.len() + g.list_all_relations().file_relations.len()
            + g.list_all_relations().symbol_nodes.len() < usize::MAX,
    ensures
        forall|i: int|
            0 <= i < g.list_all_relations().file_nodes.len() ==> (
            #[trigger] g.list_all_relations().file_nodes[i]).id == i,
        tidy(
            with_files(
                g.symbols,
                sorted_names(g.files()),
                sorted_names(g.files()).len(),
            ),
            g.list_all_relations().file_nodes.len() as usize,
        ),
{
    let files = sorted_names(g.files());
    lemma_sorted_names(g.files());
    lemma_with_files_tidy(g.symbols, files, files.len());
    lemma_count(g.symbols, files, files.len());
}

/// Whether the next free number of an index is the count of what it and
/// the files before it hold, or the largest number if that is less.
pub open spec fn counted(state: Interned, start: usize) -> bool {
    state.next == if start + state.relations.len() + state.nodes.len() < usize::MAX {
        start + state.relations.len() + state.nodes.len()
    } else {
        usize::MAX as int
    }
}

proof fn lemma_interned_all_counted(state: Interned, symbols: Seq<(SymbolModel, usize)>, start: usize)
    requires
        counted(state, start),
    ensures
        counted(interned_all(state, symbols), start),
        interned_all(state, symbols).relations == state.relations,
    decreases symbols.len(),
{
    if symbols.len() > 0 {
        lemma_interned_all_counted(state, symbols.drop_last(), start);
    }
}

proof fn lemma_with_relations_counted(
    state: Interned,
    files: Seq<Seq<char>>,
    src: usize,
    related: Seq<RelatedFileModel>,
    start: usize,
)
    requires
        counted(state, start),
    ensures
        counted(with_relations(state, files, src, related), start),
    decreases related.len(),
{
    if related.len() > 0 {
        lemma_with_relations_counted(state, files, src, related.drop_last(), start);
        let before = with_relations(state, files, src, related.drop_last());
        lemma_interned_all_counted(before, related.last().related_symbols, start);
    }
}

proof fn lemma_count(m: GraphModel, files: Seq<Seq<char>>, n: nat)
    requires
        n <= files.len() <= usize::MAX,
    ensures
        counted(with_files(m, files, n), files.len() as usize),
    decreases n,
{
    if n > 0 {
        lemma_count(m, files, (n - 1) as nat);
        lemma_with_relations_counted(
            with_files(m, files, (n - 1) as nat),
            files,
            (n - 1) as usize,
            m.related_files(files[n - 1]),
            files.len() as usize,
        );
    }
}

/// A cache gives back what was stored for the same content, nothing for
/// other content, and nothing where no entry can be read.
pub proof fn lemma_cache_round_trip(blob_id: Seq<char>, other: Seq<char>, symbols: Seq<SymbolModel>)
    requires
        other != blob_id,
    ensures
        cached(Some(CacheEntryModel { blob_id, symbols }), blob_id) == Some(symbols),
        cached(Some(CacheEntryModel { blob_id, symbols }), other) is None,
        cached(None, blob_id) is None,
{
}

/// A name has no two equal segments in a row.
pub proof fn lemma_no_repeated_segment(parts: Seq<Seq<char>>)
    ensures
        forall|i: int|
            0 < i < dedup_adjacent(parts).len() ==> dedup_adjacent(parts)[i - 1]
                != #[trigger] dedup_adjacent(parts)[i],
    decreases parts.len(),
{
    if parts.len() > 0 {
        lemma_no_repeated_segment(parts.drop_last());
        let rest = dedup_adjacent(parts.drop_last());
        let all = dedup_adjacent(parts);
        assert forall|i: int| 0 < i < all.len() implies all[i - 1] != #[trigger] all[i] by {
            if i < rest.len() {
                assert(all[i] == rest[i]);
                assert(all[i - 1] == rest[i - 1]);
            } else {
                assert(all[i - 1] == rest.last());
            }
        }
    }
}

/// Every segment that is left when repeats are dropped is one of the
/// segments.
pub proof fn lemma_dedup_within(parts: Seq<Seq<char>>)
    ensures
        forall|i: int|
            0 <= i < dedup_adjacent(parts).len() ==> parts.contains(
                #[trigger] dedup_adjacent(parts)[i],
            ),
    decreases parts.len(),
{
    if parts.len() > 0 {
        let front = parts.drop_last();
        lemma_dedup_within(front);
        let rest = dedup_adjacent(front);
        let all = dedup_adjacent(parts);
        assert forall|i: int| 0 <= i < all.len() implies parts.contains(#[trigger] all[i]) by {
            if i < rest.len() {
                assert(all[i] == rest[i]);
                let k = choose|k: int| 0 <= k < front.len() && front[k] == rest[i];
                assert(parts[k] == all[i]);
            } else {
                assert(parts[parts.len() - 1] == all[i]);
            }
        }
    }
}

/// One simple name under two scope paths gives two different names, where
/// the paths with the name after them differ once repeats are dropped, and
/// no segment holds a dot.
pub proof fn lemma_scope_isolation(
    a: Seq<ScopeModel>,
    b: Seq<ScopeModel>,
    name: Seq<char>,
    receivers: bool,
)
    requires
        dedup_adjacent(scope_path(a, receivers).push(name)) != dedup_adjacent(
            scope_path(b, receivers).push(name),
        ),
        !name.contains('.'),
        forall|i: int|
            0 <= i < scope_path(a, receivers).len() ==> !(#[trigger] scope_path(
                a,
                receivers,
            )[i]).contains('.'),
        forall|i: int|
            0 <= i < scope_path(b, receivers).len() ==> !(#[trigger] scope_path(
                b,
                receivers,
            )[i]).contains('.'),
    ensures
        fqn(a, name, receivers) != fqn(b, name, receivers),
{
    let pa = scope_path(a, receivers).push(name);
    let pb = scope_path(b, receivers).push(name);
    let da = dedup_adjacent(pa);
    let db = dedup_adjacent(pb);
    lemma_dedup_within(pa);
    lemma_dedup_within(pb);
    lemma_dedup_last(pa);
    lemma_dedup_last(pb);
    assert forall|i: int| 0 <= i < da.len() implies !(#[trigger] da[i]).contains('.') by {
        let k = choose|k: int| 0 <= k < pa.len() && pa[k] == da[i];
        if k < pa.len() - 1 {
            assert(pa[k] == scope_path(a, receivers)[k]);
        }
    }
    assert forall|i: int| 0 <= i < db.len() implies !(#[trigger] db[i]).contains('.') by {
        let k = choose|k: int| 0 <= k < pb.len() && pb[k] == db[i];
        if k < pb.len() - 1 {
            assert(pb[k] == scope_path(b, receivers)[k]);
        }
    }
    if join_dots(da) == join_dots(db) {
        lemma_join_dots_injective(da, db);
    }
}

/// Where the rule of a language prunes at a level above zero, no definition
/// of a file lies that many scopes deep or deeper, the scopes being those
/// that the rule's scope query captures; and every reference and import that
/// the captures give is among the file's symbols.
pub proof fn lemma_depth_bound(language: Extractor, file: Seq<char>, source: Seq<char>)
    requires
        captured_by(grammar_of(language), rule_of(language), source) is Ok,
    ensures
        ({
            let captures = captured_by(grammar_of(language), rule_of(language), source).unwrap();
            let all = captured_symbols(file, rule_of(language), language.writes_receivers(), captures);
            let kept = symbols_in(language, file, source);
            &&& rule_of(language).namespace_filter_level > 0 ==> forall|i: int|
                0 <= i < kept.len() && (#[trigger] kept[i]).kind == SymbolKind::DEF ==> line_depth(
                    of_kind(all, SymbolKind::NAMESPACE),
                    kept[i].range.start_point.row,
                ) < rule_of(language).namespace_filter_level
            &&& forall|j: int|
                0 <= j < all.len() && ((#[trigger] all[j]).kind == SymbolKind::REF || all[j].kind
                    == SymbolKind::IMPORT) ==> kept.contains(all[j])
        }),
{
    let captures = captured_by(grammar_of(language), rule_of(language), source).unwrap();
    let all = captured_symbols(file, rule_of(language), language.writes_receivers(), captures);
    let level = rule_of(language).namespace_filter_level;
    lemma_pruned(all, level);
    lemma_survivors_kept(all, of_kind(all, SymbolKind::NAMESPACE), level);
}

/// Every symbol that survives pruning is among the survivors.
pub proof fn lemma_survivors_kept(
    symbols: Seq<SymbolModel>,
    namespaces: Seq<SymbolModel>,
    level: usize,
)
    ensures
        forall|j: int|
            0 <= j < symbols.len() && survives(namespaces, level, #[trigger] symbols[j])
                ==> survivors(symbols, namespaces, level).contains(symbols[j]),
    decreases symbols.len(),
{
    if symbols.len() > 0 {
        let front = symbols.drop_last();
        lemma_survivors_kept(front, namespaces, level);
        let kept = survivors(symbols, namespaces, level);
        let before = survivors(front, namespaces, level);
        assert forall|j: int|
            0 <= j < symbols.len() && survives(namespaces, level, #[trigger] symbols[j]) implies kept.contains(
            symbols[j],
        ) by {
            if j < front.len() {
                assert(front[j] == symbols[j]);
                let k = choose|k: int| 0 <= k < before.len() && before[k] == symbols[j];
                assert(kept[k] == symbols[j]);
            } else {
                assert(kept[kept.len() - 1] == symbols[j]);
            }
        }
    }
}

/// Whether no pair holds a symbol of the file `path`.
pub open spec fn clear_of(pairs: Seq<(SymbolModel, usize)>, path: Seq<char>) -> bool {
    forall|i: int| 0 <= i < pairs.len() ==> (#[trigger] pairs[i]).0.file != path
}

/// Whether no symbol of the graph is of the file `path`.
pub open spec fn holds_none_of(m: GraphModel, path: Seq<char>) -> bool {
    forall|i: int|
        0 <= i < m.nodes.len() && (#[trigger] m.nodes[i]).symbol is Some
            ==> m.nodes[i].symbol.unwrap().file != path
}

proof fn lemma_kinds_clear(
    pairs: Seq<(SymbolModel, usize)>,
    first: SymbolKind,
    second: SymbolKind,
    path: Seq<char>,
)
    requires
        clear_of(pairs, path),
    ensures
        clear_of(pairs_of_kinds(pairs, first, second), path),
    decreases pairs.len(),
{
    if pairs.len() > 0 {
        let front = pairs.drop_last();
        assert forall|i: int| 0 <= i < front.len() implies (#[trigger] front[i]).0.file != path by {
            assert(front[i] == pairs[i]);
        }
        lemma_kinds_clear(front, first, second, path);
        let rest = pairs_of_kinds(front, first, second);
        let all = pairs_of_kinds(pairs, first, second);
        assert forall|i: int| 0 <= i < all.len() implies (#[trigger] all[i]).0.file != path by {
            if i < rest.len() {
                assert(all[i] == rest[i]);
            } else {
                assert(all[i] == pairs[pairs.len() - 1]);
            }
        }
    }
}

proof fn lemma_elsewhere_clear(pairs: Seq<(SymbolModel, usize)>, file: Seq<char>, path: Seq<char>)
    requires
        clear_of(pairs, path),
    ensures
        clear_of(elsewhere(pairs, file), path),
    decreases pairs.len(),
{
    if pairs.len() > 0 {
        let front = pairs.drop_last();
        assert forall|i: int| 0 <= i < front.len() implies (#[trigger] front[i]).0.file != path by {
            assert(front[i] == pairs[i]);
        }
        lemma_elsewhere_clear(front, file, path);
        let rest = elsewhere(front, file);
        let all = elsewhere(pairs, file);
        assert forall|i: int| 0 <= i < all.len() implies (#[trigger] all[i]).0.file != path by {
            if i < rest.len() {
                assert(all[i] == rest[i]);
            } else {
                assert(all[i] == pairs[pairs.len() - 1]);
            }
        }
    }
}

proof fn lemma_neighbors_clear(m: GraphModel, id: Seq<char>, path: Seq<char>)
    requires
        holds_none_of(m, path),
    ensures
        clear_of(m.symbol_neighbors(id), path),
{
    if m.symbols.contains_key(id) {
        lemma_symbols_among(m, incident(m.edges, m.symbols[id]));
    }
}

proof fn lemma_incoming_clear(m: GraphModel, defs: Seq<SymbolModel>, count: usize, path: Seq<char>)
    requires
        holds_none_of(m, path),
    ensures
        clear_of(incoming(m, defs, count), path),
    decreases defs.len(),
{
    if defs.len() > 0 {
        lemma_incoming_clear(m, defs.drop_last(), count, path);
        lemma_neighbors_clear(m, defs.last().id(), path);
        lemma_kinds_clear(
            m.symbol_neighbors(defs.last().id()),
            SymbolKind::REF,
            SymbolKind::REF,
            path,
        );
    }
}

proof fn lemma_outgoing_clear(m: GraphModel, refs: Seq<SymbolModel>, path: Seq<char>)
    requires
        holds_none_of(m, path),
    ensures
        clear_of(outgoing(m, refs), path),
    decreases refs.len(),
{
    if refs.len() > 0 {
        lemma_outgoing_clear(m, refs.drop_last(), path);
        lemma_neighbors_clear(m, refs.last().id(), path);
        lemma_kinds_clear(
            m.symbol_neighbors(refs.last().id()),
            SymbolKind::DEF,
            SymbolKind::DEF,
            path,
        );
    }
}

/// A file of which a graph holds no symbol is related to no file.
pub proof fn lemma_unrelated(m: GraphModel, file: Seq<char>, path: Seq<char>)
    requires
        holds_none_of(m, path),
    ensures
        forall|k: int|
            0 <= k < m.related_files(file).len() ==> (#[trigger] m.related_files(file)[k]).name
                != path,
{
    if m.files.contains_key(file) {
        let met = m.relations_met(file);
        let obs = m.observed(file);
        let scores = Seq::new(met.len(), |i: int| met[i].score);
        let defs = m.list_definitions(file);
        lemma_incoming_clear(m, defs, defs.len() as usize, path);
        lemma_outgoing_clear(m, m.list_references(file), path);
        lemma_elsewhere_clear(
            incoming(m, defs, defs.len() as usize) + outgoing(m, m.list_references(file)),
            file,
            path,
        );
        lemma_distinct(files_of(obs));
        let names = distinct(files_of(obs));
        assert forall|i: int| 0 <= i < met.len() implies (#[trigger] met[i]).name != path by {
            assert(names.contains(names[i]));
            assert(files_of(obs).contains(names[i]));
            let w = choose|w: int| 0 <= w < files_of(obs).len() && files_of(obs)[w] == names[i];
            assert(obs[w].0.file == names[i]);
        }
        lemma_order_in_range(scores);
        let order = order_desc(scores);
        assert forall|k: int| 0 <= k < m.related_files(file).len() implies (
        #[trigger] m.related_files(file)[k]).name != path by {
            assert(m.related_files(file)[k] == met[order[k] as int]);
            assert(0 <= order[k] < met.len());
        }
    }
}

/// The symbols of each context of a list of files are of the context's
/// own file.
pub proof fn lemma_contexts_own(sources: Seq<SourceFile>, listed: Set<Seq<char>>, limit: usize)
    ensures
        forall|k: int, i: int|
            0 <= k < contexts_among(sources, listed, limit).len() && 0 <= i < contexts_among(
                sources,
                listed,
                limit,
            )[k].symbols.len() ==> (#[trigger] contexts_among(sources, listed, limit)[k].symbols[i]).file
                == contexts_among(sources, listed, limit)[k].path,
    decreases sources.len(),
{
    if sources.len() > 0 {
        lemma_contexts_own(sources.drop_last(), listed, limit);
        let last = sources.last();
        let rest = contexts_among(sources.drop_last(), listed, limit);
        let all = contexts_among(sources, listed, limit);
        if language_of(last.path@) is Some {
            lemma_symbols_in(language_of(last.path@).unwrap(), last.path@, last.content@);
        }
        assert forall|k: int, i: int|
            0 <= k < all.len() && 0 <= i < all[k].symbols.len() implies (
        #[trigger] all[k].symbols[i]).file == all[k].path by {
            if k < rest.len() {
                assert(all[k] == rest[k]);
            }
        }
    }
}

/// In a graph, an edge from a file to a symbol joins the file to a symbol of
/// that file.
pub proof fn lemma_file_links(h: HistoryModel, sources: Seq<SourceFile>, conf: GraphConfig, i: int)
    requires
        0 <= i < graph_of(h, sources, conf).symbols.edges.len(),
    ensures
        ({
            let m = graph_of(h, sources, conf).symbols;
            let x = m.nodes[m.edges[i].a as int];
            let y = m.nodes[m.edges[i].b as int];
            x.symbol is None && y.symbol is Some ==> y.symbol.unwrap().file == x.id
        }),
{
    let g = graph_of(h, sources, conf);
    let m = g.symbols;
    let listed = candidates(h, conf.exclude_file_regex@);
    let x = m.nodes[m.edges[i].a as int];
    let y = m.nodes[m.edges[i].b as int];
    lemma_contexts_own(sources, listed, conf.symbol_limit);
    lemma_built_placed(
        h,
        g.contexts,
        listed.len() as usize,
        conf.commit_size_limit_ratio,
        conf.def_limit,
        conf.symbol_len_limit,
    );
    assert(edge_is_placed(m, g.contexts, m.edges[i]));
    if x.symbol is None && y.symbol is Some {
        let s = y.symbol.unwrap();
        let (c, j) = choose|c: int, j: int|
            0 <= c < g.contexts.len() && 0 <= j < g.contexts[c].symbols.len() && (
            #[trigger] g.contexts[c]).path == x.id && (#[trigger] g.contexts[c].symbols[j]).id()
                == s.id();
        lemma_id_injective(g.contexts[c].symbols[j], s);
    }
}

/// A file that has no context in a graph, as one that could not be read
/// has none, is among the files related to no file.
pub proof fn lemma_skipped_file(
    h: HistoryModel,
    sources: Seq<SourceFile>,
    conf: GraphConfig,
    file: Seq<char>,
    path: Seq<char>,
)
    requires
        forall|k: int|
            0 <= k < graph_of(h, sources, conf).contexts.len() ==> (#[trigger] graph_of(
                h,
                sources,
                conf,
            ).contexts[k]).path != path,
    ensures
        forall|k: int|
            0 <= k < graph_of(h, sources, conf).symbols.related_files(file).len() ==> (
            #[trigger] graph_of(h, sources, conf).symbols.related_files(file)[k]).name != path,
{
    let g = graph_of(h, sources, conf);
    let listed = candidates(h, conf.exclude_file_regex@);
    lemma_contexts_own(sources, listed, conf.symbol_limit);
    lemma_built_drawn(
        h,
        g.contexts,
        listed.len() as usize,
        conf.commit_size_limit_ratio,
        conf.def_limit,
        conf.symbol_len_limit,
    );
    assert forall|i: int|
        0 <= i < g.symbols.nodes.len() && (#[trigger] g.symbols.nodes[i]).symbol is Some implies g.symbols.nodes[i].symbol.unwrap().file
        != path by {
        let s = g.symbols.nodes[i].symbol.unwrap();
        let c = choose|c: int| 0 <= c < g.contexts.len() && (#[trigger] g.contexts[c]).symbols.contains(s);
        let j = choose|j: int| 0 <= j < g.contexts[c].symbols.len() && g.contexts[c].symbols[j] == s;
        assert(g.contexts[c].symbols[j].file == g.contexts[c].path);
    }
    lemma_unrelated(g.symbols, file, path);
}

/// Two graphs of one history, the same files and one configuration are
/// equal, and so is every answer that they give: the index, in the same
/// order, and the files related to each file.
pub proof fn lemma_build_deterministic(
    a: GraphView,
    b: GraphView,
    h: HistoryModel,
    sources: Seq<SourceFile>,
    conf: GraphConfig,
)
    requires
        a == graph_of(h, sources, conf),
        b == graph_of(h, sources, conf),
    ensures
        a == b,
        a.list_all_relations() == b.list_all_relations(),
        forall|file: Seq<char>| a.symbols.related_files(file) == b.symbols.related_files(file),
{
}

} // verus!

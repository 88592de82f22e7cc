//! The queries on a built graph: the files, the files related to a file,
//! the symbols related to a symbol, and the index of all relations.

use crate::graph::{paths_of, Graph, GraphView, RelatedSymbol};
use crate::history::{history_commits_of_file, history_issues_of_file};
use crate::index::NameIndex;
use crate::model::{raised, GraphModel};
use crate::order::{is_ranking, order_desc, rank_desc, sort_names, sorted_names};
use crate::symbol::{DefRefPair, RangeWrapper, Symbol, SymbolKind, SymbolModel};
use crate::weight::has_name;
use vstd::prelude::*;

verus! {

/// A file that is related to another, with the strength of the relation.
pub struct RelatedFileContext {
    pub name: String,
    pub score: usize,
    /// The number of definitions in the file.
    pub defs: usize,
    /// The number of references in the file.
    pub refs: usize,
    /// The symbols through which the files are related, each with what it
    /// adds to the score.
    pub related_symbols: Vec<RelatedSymbol>,
}

/// The mathematical value of a [`RelatedFileContext`].
pub struct RelatedFileModel {
    pub name: Seq<char>,
    pub score: usize,
    pub defs: usize,
    pub refs: usize,
    pub related_symbols: Seq<(SymbolModel, usize)>,
}

impl View for RelatedFileContext {
    type V = RelatedFileModel;

    open spec fn view(&self) -> RelatedFileModel {
        RelatedFileModel {
            name: self.name@,
            score: self.score,
            defs: self.defs,
            refs: self.refs,
            related_symbols: self.related_symbols.deep_view(),
        }
    }
}

impl DeepView for RelatedFileContext {
    type V = RelatedFileModel;

    open spec fn deep_view(&self) -> RelatedFileModel {
        self@
    }
}

impl Clone for RelatedFileContext {
    fn clone(&self) -> (r: RelatedFileContext)
        ensures
            r@ == self@,
    {
        let mut related_symbols: Vec<RelatedSymbol> = Vec::new();
        let mut i: usize = 0;
        while i < self.related_symbols.len()
            invariant
                i <= self.related_symbols.len(),
                related_symbols.len() == i,
                forall|k: int| 0 <= k < i ==> (#[trigger] related_symbols[k])@ == self.related_symbols[k]@,
            decreases self.related_symbols.len() - i,
        {
            related_symbols.push(self.related_symbols[i].clone());
            i += 1;
        }
        assert(related_symbols.deep_view() =~= self.related_symbols.deep_view());
        RelatedFileContext {
            name: self.name.clone(),
            score: self.score,
            defs: self.defs,
            refs: self.refs,
            related_symbols,
        }
    }
}

/// What is known of one file.
pub struct FileMetadata {
    pub path: String,
    pub commits: Vec<String>,
    pub symbols: Vec<Symbol>,
    pub issues: Vec<String>,
}

/// What a line of the index of all relations holds.
#[derive(Debug, Clone, Copy, PartialEq, Eq, Hash, Structural)]
pub enum LineKind {
    FileNode,
    FileRelation,
    SymbolNode,
}

/// A file of the index.
#[derive(Debug, Clone)]
pub struct FileNode {
    pub id: usize,
    pub kind: LineKind,
    pub name: String,
    pub issues: Vec<String>,
}

/// A relation of the index: from the file `src` to the file `dst`, through
/// the definitions `symbols`.
#[derive(Debug, Clone)]
pub struct FileRelation {
    pub id: usize,
    pub kind: LineKind,
    pub src: usize,
    pub dst: usize,
    pub symbols: Vec<usize>,
}

/// A definition of the index.
#[derive(Debug, Clone)]
pub struct SymbolNode {
    pub id: usize,
    pub kind: LineKind,
    pub name: String,
    pub range: RangeWrapper,
}

/// The index of all relations: the files, the relations between them, and
/// the definitions that the relations go through.
#[derive(Debug, Clone)]
pub struct RelationList {
    pub file_nodes: Vec<FileNode>,
    pub file_relations: Vec<FileRelation>,
    pub symbol_nodes: Vec<SymbolNode>,
}

/// The mathematical value of a [`FileNode`].
pub struct FileNodeModel {
    pub id: usize,
    pub kind: LineKind,
    pub name: Seq<char>,
    pub issues: Seq<Seq<char>>,
}

/// The mathematical value of a [`FileRelation`].
pub struct FileRelationModel {
    pub id: usize,
    pub kind: LineKind,
    pub src: usize,
    pub dst: usize,
    pub symbols: Seq<usize>,
}

/// The mathematical value of a [`SymbolNode`].
pub struct SymbolNodeModel {
    pub id: usize,
    pub kind: LineKind,
    pub name: Seq<char>,
    pub range: RangeWrapper,
}

/// The mathematical value of a [`RelationList`].
pub struct RelationListModel {
    pub file_nodes: Seq<FileNodeModel>,
    pub file_relations: Seq<FileRelationModel>,
    pub symbol_nodes: Seq<SymbolNodeModel>,
}

impl View for FileNode {
    type V = FileNodeModel;

    open spec fn view(&self) -> FileNodeModel {
        FileNodeModel {
            id: self.id,
            kind: self.kind,
            name: self.name@,
            issues: self.issues.deep_view(),
        }
    }
}

impl DeepView for FileNode {
    type V = FileNodeModel;

    open spec fn deep_view(&self) -> FileNodeModel {
        self@
    }
}

impl View for FileRelation {
    type V = FileRelationModel;

    open spec fn view(&self) -> FileRelationModel {
        FileRelationModel {
            id: self.id,
            kind: self.kind,
            src: self.src,
            dst: self.dst,
            symbols: self.symbols@,
        }
    }
}

impl DeepView for FileRelation {
    type V = FileRelationModel;

    open spec fn deep_view(&self) -> FileRelationModel {
        self@
    }
}

impl View for SymbolNode {
    type V = SymbolNodeModel;

    open spec fn view(&self) -> SymbolNodeModel {
        SymbolNodeModel { id: self.id, kind: self.kind, name: self.name@, range: self.range }
    }
}

impl DeepView for SymbolNode {
    type V = SymbolNodeModel;

    open spec fn deep_view(&self) -> SymbolNodeModel {
        self@
    }
}

impl View for RelationList {
    type V = RelationListModel;

    open spec fn view(&self) -> RelationListModel {
        RelationListModel {
            file_nodes: self.file_nodes.deep_view(),
            file_relations: self.file_relations.deep_view(),
            symbol_nodes: self.symbol_nodes.deep_view(),
        }
    }
}

/// The place of the first `x` in `names`.
pub open spec fn place_of(names: Seq<Seq<char>>, x: Seq<char>) -> Option<usize>
    decreases names.len(),
{
    if names.len() == 0 {
        None
    } else {
        match place_of(names.drop_last(), x) {
            Some(i) => Some(i),
            None => if names.last() == x {
                Some((names.len() - 1) as usize)
            } else {
                None
            },
        }
    }
}

/// A place that `place_of` gives holds the name.
pub proof fn lemma_place_of(names: Seq<Seq<char>>, x: Seq<char>)
    requires
        names.len() <= usize::MAX,
    ensures
        place_of(names, x) is Some ==> place_of(names, x).unwrap() < names.len() && names[place_of(
            names,
            x,
        ).unwrap() as int] == x,
        place_of(names, x) is None ==> !names.contains(x),
    decreases names.len(),
{
    if names.len() > 0 {
        lemma_place_of(names.drop_last(), x);
        if place_of(names.drop_last(), x) is Some {
            let i = place_of(names.drop_last(), x).unwrap();
            assert(names.drop_last()[i as int] == names[i as int]);
        } else if names.last() != x {
            if names.contains(x) {
                let i = choose|i: int| 0 <= i < names.len() && names[i] == x;
                assert(names.drop_last()[i] == x);
            }
        }
    }
}

/// The place of the first `name` in `names`.
pub fn find_name(names: &Vec<String>, name: &String) -> (r: Option<usize>)
    ensures
        r == place_of(names.deep_view(), name@),
{
    let mut i: usize = 0;
    while i < names.len()
        invariant
            i <= names.len(),
            place_of(names.deep_view().take(i as int), name@) is None,
        decreases names.len() - i,
    {
        proof {
            assert(names.deep_view().take(i + 1).drop_last() =~= names.deep_view().take(i as int));
            assert(names.deep_view().take(i + 1).last() == names[i as int]@);
        }
        if names[i] == *name {
            proof {
                lemma_place_stays(names.deep_view(), name@, i + 1);
            }
            return Some(i);
        }
        i += 1;
    }
    assert(names.deep_view().take(names.len() as int) =~= names.deep_view());
    None
}

/// A name found in the first `n` names keeps its place in the whole list.
proof fn lemma_place_stays(names: Seq<Seq<char>>, x: Seq<char>, n: int)
    requires
        0 <= n <= names.len(),
        place_of(names.take(n), x) is Some,
    ensures
        place_of(names, x) == place_of(names.take(n), x),
    decreases names.len() - n,
{
    if n < names.len() {
        assert(names.take(n + 1).drop_last() =~= names.take(n));
        lemma_place_stays(names, x, n + 1);
    } else {
        assert(names.take(n) =~= names);
    }
}

/// What an index gives for a name: its slot, if it holds the name.
pub open spec fn slot_of(index: Map<Seq<char>, usize>, x: Seq<char>) -> Option<usize> {
    if index.contains_key(x) {
        Some(index[x])
    } else {
        None
    }
}

/// Whether an index gives for every name its first place in `names`.
pub open spec fn places(index: Map<Seq<char>, usize>, names: Seq<Seq<char>>) -> bool {
    forall|x: Seq<char>| #[trigger] slot_of(index, x) == place_of(names, x)
}

/// An index of the first place of each name.
pub fn places_of(names: &Vec<String>) -> (r: NameIndex)
    ensures
        r.wf(),
        places(r@, names.deep_view()),
{
    let mut index = NameIndex::new();
    let mut i: usize = 0;
    while i < names.len()
        invariant
            i <= names.len(),
            index.wf(),
            places(index@, names.deep_view().take(i as int)),
        decreases names.len() - i,
    {
        let ghost before = index@;
        let ghost shorter = names.deep_view().take(i as int);
        let ghost longer = names.deep_view().take(i + 1);
        proof {
            assert(longer.drop_last() =~= shorter);
            assert(longer.last() == names[i as int]@);
            assert(slot_of(before, names[i as int]@) == place_of(shorter, names[i as int]@));
        }
        if !index.contains_key(&names[i]) {
            index.insert(names[i].clone(), i);
        }
        proof {
            assert forall|x: Seq<char>| #[trigger] slot_of(index@, x) == place_of(longer, x) by {
                assert(slot_of(before, x) == place_of(shorter, x));
            }
        }
        i += 1;
    }
    assert(names.deep_view().take(names.len() as int) =~= names.deep_view());
    index
}

/// The index while it is built: the relations and definitions so far, the
/// identifier of each definition's symbol, and the next free number.
pub struct Interned {
    pub relations: Seq<FileRelationModel>,
    pub nodes: Seq<SymbolNodeModel>,
    pub keys: Seq<Seq<char>>,
    pub next: usize,
}

/// The number of the definition `s` in the index, which gets a new one
/// unless it is in the index already.
pub open spec fn number_of(state: Interned, s: SymbolModel) -> usize {
    match place_of(state.keys, s.id()) {
        Some(i) => state.nodes[i as int].id,
        None => state.next,
    }
}

/// The index after the definition `s` was looked up in it.
pub open spec fn interned(state: Interned, s: SymbolModel) -> Interned {
    match place_of(state.keys, s.id()) {
        Some(i) => state,
        None => Interned {
            nodes: state.nodes.push(
                SymbolNodeModel {
                    id: state.next,
                    kind: LineKind::SymbolNode,
                    name: s.name,
                    range: s.range,
                },
            ),
            keys: state.keys.push(s.id()),
            next: raised(state.next, 1),
            ..state
        },
    }
}

/// The index after the definitions among `symbols` were looked up in it.
pub open spec fn interned_all(state: Interned, symbols: Seq<(SymbolModel, usize)>) -> Interned
    decreases symbols.len(),
{
    if symbols.len() == 0 {
        state
    } else {
        let before = interned_all(state, symbols.drop_last());
        if symbols.last().0.kind == SymbolKind::DEF {
            interned(before, symbols.last().0)
        } else {
            before
        }
    }
}

/// The numbers of the definitions among `symbols`, each once, in the order
/// in which they are first met.
pub open spec fn numbers_of(state: Interned, symbols: Seq<(SymbolModel, usize)>) -> Seq<usize>
    decreases symbols.len(),
{
    if symbols.len() == 0 {
        Seq::empty()
    } else {
        let rest = numbers_of(state, symbols.drop_last());
        let before = interned_all(state, symbols.drop_last());
        if symbols.last().0.kind == SymbolKind::DEF && !rest.contains(
            number_of(before, symbols.last().0),
        ) {
            rest.push(number_of(before, symbols.last().0))
        } else {
            rest
        }
    }
}

/// The index after the relation of the file number `src` to a related file
/// was entered: nothing happens for a related file that is not among
/// `files`.
pub open spec fn with_relation(
    state: Interned,
    files: Seq<Seq<char>>,
    src: usize,
    related: RelatedFileModel,
) -> Interned {
    match place_of(files, related.name) {
        Some(dst) => {
            let after = interned_all(state, related.related_symbols);
            Interned {
                relations: after.relations.push(
                    FileRelationModel {
                        id: after.next,
                        kind: LineKind::FileRelation,
                        src,
                        dst,
                        symbols: numbers_of(state, related.related_symbols),
                    },
                ),
                next: raised(after.next, 1),
                ..after
            }
        },
        None => state,
    }
}

/// The index after the relations of the file number `src` were entered.
pub open spec fn with_relations(
    state: Interned,
    files: Seq<Seq<char>>,
    src: usize,
    related: Seq<RelatedFileModel>,
) -> Interned
    decreases related.len(),
{
    if related.len() == 0 {
        state
    } else {
        with_relation(
            with_relations(state, files, src, related.drop_last()),
            files,
            src,
            related.last(),
        )
    }
}

/// The index after the relations of the first `n` files were entered.
pub open spec fn with_files(m: GraphModel, files: Seq<Seq<char>>, n: nat) -> Interned
    decreases n,
{
    if n == 0 || n > files.len() {
        Interned {
            relations: Seq::empty(),
            nodes: Seq::empty(),
            keys: Seq::empty(),
            next: files.len() as usize,
        }
    } else {
        with_relations(
            with_files(m, files, (n - 1) as nat),
            files,
            (n - 1) as usize,
            m.related_files(files[n - 1]),
        )
    }
}

/// The names of `names`, each once, in the order in which they first occur.
pub open spec fn distinct(names: Seq<Seq<char>>) -> Seq<Seq<char>>
    decreases names.len(),
{
    if names.len() == 0 {
        Seq::empty()
    } else {
        let rest = distinct(names.drop_last());
        if rest.contains(names.last()) {
            rest
        } else {
            rest.push(names.last())
        }
    }
}

/// `distinct` keeps every name and repeats none.
pub proof fn lemma_distinct(names: Seq<Seq<char>>)
    ensures
        distinct(names).no_duplicates(),
        forall|x: Seq<char>| #[trigger] distinct(names).contains(x) <==> names.contains(x),
    decreases names.len(),
{
    if names.len() > 0 {
        let rest = names.drop_last();
        lemma_distinct(rest);
        let d = distinct(rest);
        let out = distinct(names);
        assert forall|x: Seq<char>| #[trigger] out.contains(x) <==> names.contains(x) by {
            if out.contains(x) {
                let k = choose|k: int| 0 <= k < out.len() && out[k] == x;
                if k < d.len() {
                    assert(d[k] == x);
                    assert(d.contains(x));
                    let i = choose|i: int| 0 <= i < rest.len() && rest[i] == x;
                    assert(names[i] == x);
                } else {
                    assert(names[names.len() - 1] == x);
                }
            }
            if names.contains(x) {
                let i = choose|i: int| 0 <= i < names.len() && names[i] == x;
                if i < rest.len() {
                    assert(rest[i] == x);
                    assert(d.contains(x));
                    let k = choose|k: int| 0 <= k < d.len() && d[k] == x;
                    assert(out[k] == x);
                } else if d.contains(x) {
                    let k = choose|k: int| 0 <= k < d.len() && d[k] == x;
                    assert(out[k] == x);
                } else {
                    assert(out[out.len() - 1] == x);
                }
            }
        }
        if !d.contains(names.last()) {
            assert forall|i: int, j: int| 0 <= i < out.len() && 0 <= j < out.len() && i
                != j implies out[i] != out[j] by {
                if i < d.len() && j < d.len() {
                    assert(out[i] == d[i] && out[j] == d[j]);
                } else if i < d.len() {
                    assert(d.contains(d[i]));
                } else {
                    assert(d.contains(d[j]));
                }
            }
        }
    }
}

/// The names of a list, each once, in the order in which they first occur.
pub fn distinct_names(names: &Vec<String>) -> (r: Vec<String>)
    ensures
        r.deep_view() == distinct(names.deep_view()),
{
    let mut out: Vec<String> = Vec::new();
    let mut seen = NameIndex::new();
    let mut i: usize = 0;
    while i < names.len()
        invariant
            i <= names.len(),
            seen.wf(),
            forall|x: Seq<char>| #[trigger] seen@.contains_key(x) <==> out.deep_view().contains(x),
            out.deep_view() == distinct(names.deep_view().take(i as int)),
        decreases names.len() - i,
    {
        proof {
            assert(names.deep_view().take(i + 1).drop_last() =~= names.deep_view().take(i as int));
            assert(names.deep_view().take(i + 1).last() == names[i as int]@);
        }
        if !seen.contains_key(&names[i]) {
            let ghost before = out.deep_view();
            let ghost known = seen@;
            seen.insert(names[i].clone(), i);
            out.push(names[i].clone());
            proof {
                let after = out.deep_view();
                assert(after =~= before.push(names[i as int]@));
                assert forall|x: Seq<char>| #[trigger] seen@.contains_key(x) <==> after.contains(
                    x,
                ) by {
                    assert(known.contains_key(x) <==> before.contains(x));
                    if before.contains(x) {
                        let k = choose|k: int| 0 <= k < before.len() && before[k] == x;
                        assert(after[k] == x);
                    }
                    if after.contains(x) {
                        let k = choose|k: int| 0 <= k < after.len() && after[k] == x;
                        if k < before.len() {
                            assert(before[k] == x);
                        }
                    }
                    if x == names[i as int]@ {
                        assert(after[before.len() as int] == x);
                    }
                }
            }
        }
        i += 1;
    }
    assert(names.deep_view().take(names.len() as int) =~= names.deep_view());
    out
}

/// The pairs of `pairs` whose symbol is of one of two kinds, in their
/// order.
pub open spec fn pairs_of_kinds(
    pairs: Seq<(SymbolModel, usize)>,
    first: SymbolKind,
    second: SymbolKind,
) -> Seq<(SymbolModel, usize)>
    decreases pairs.len(),
{
    if pairs.len() == 0 {
        Seq::empty()
    } else if pairs.last().0.kind == first || pairs.last().0.kind == second {
        pairs_of_kinds(pairs.drop_last(), first, second).push(pairs.last())
    } else {
        pairs_of_kinds(pairs.drop_last(), first, second)
    }
}

/// Every pair that `pairs_of_kinds` keeps is of one of the two kinds.
pub proof fn lemma_pairs_of_kinds(
    pairs: Seq<(SymbolModel, usize)>,
    first: SymbolKind,
    second: SymbolKind,
)
    ensures
        forall|i: int|
            0 <= i < pairs_of_kinds(pairs, first, second).len() ==> (#[trigger] pairs_of_kinds(
                pairs,
                first,
                second,
            )[i]).0.kind == first || pairs_of_kinds(pairs, first, second)[i].0.kind == second,
    decreases pairs.len(),
{
    if pairs.len() > 0 {
        lemma_pairs_of_kinds(pairs.drop_last(), first, second);
    }
}

/// The pairs whose symbol is of one of two kinds, in their order.
pub fn keep_kinds(pairs: Vec<(Symbol, usize)>, first: SymbolKind, second: SymbolKind) -> (r: Vec<
    (Symbol, usize),
>)
    ensures
        r.deep_view() == pairs_of_kinds(pairs.deep_view(), first, second),
{
    let mut out: Vec<(Symbol, usize)> = Vec::new();
    let mut i: usize = 0;
    while i < pairs.len()
        invariant
            i <= pairs.len(),
            out.deep_view() == pairs_of_kinds(pairs.deep_view().take(i as int), first, second),
        decreases pairs.len() - i,
    {
        proof {
            assert(pairs.deep_view().take(i + 1).drop_last() =~= pairs.deep_view().take(i as int));
            assert(pairs.deep_view().take(i + 1).last() == (pairs[i as int].0@, pairs[i as int].1));
        }
        if pairs[i].0.kind == first || pairs[i].0.kind == second {
            let ghost before = out.deep_view();
            out.push((pairs[i].0.clone(), pairs[i].1));
            assert(out.deep_view() =~= before.push((pairs[i as int].0@, pairs[i as int].1)));
        }
        i += 1;
    }
    assert(pairs.deep_view().take(pairs.len() as int) =~= pairs.deep_view());
    out
}

/// What a link of the weight `weight` to one of `count` definitions of a
/// file adds to a score: the weight shared out among the definitions, but
/// at least one.
pub open spec fn share_of(weight: usize, count: usize) -> usize {
    if count == 0 {
        weight
    } else if weight / count < 1 {
        1
    } else {
        weight / count
    }
}

/// The pairs with each weight shared out among `count` definitions.
pub open spec fn dampened(pairs: Seq<(SymbolModel, usize)>, count: usize) -> Seq<
    (SymbolModel, usize),
> {
    Seq::new(pairs.len(), |i: int| (pairs[i].0, share_of(pairs[i].1, count)))
}

/// The references linked to the definitions `defs`, each with its share of
/// the link's weight, definition after definition.
pub open spec fn incoming(m: GraphModel, defs: Seq<SymbolModel>, count: usize) -> Seq<
    (SymbolModel, usize),
>
    decreases defs.len(),
{
    if defs.len() == 0 {
        Seq::empty()
    } else {
        incoming(m, defs.drop_last(), count) + dampened(
            pairs_of_kinds(
                m.symbol_neighbors(defs.last().id()),
                SymbolKind::REF,
                SymbolKind::REF,
            ),
            count,
        )
    }
}

/// The definitions linked to the references `refs`, each with the weight of
/// the link, reference after reference.
pub open spec fn outgoing(m: GraphModel, refs: Seq<SymbolModel>) -> Seq<(SymbolModel, usize)>
    decreases refs.len(),
{
    if refs.len() == 0 {
        Seq::empty()
    } else {
        outgoing(m, refs.drop_last()) + pairs_of_kinds(
            m.symbol_neighbors(refs.last().id()),
            SymbolKind::DEF,
            SymbolKind::DEF,
        )
    }
}

/// The pairs whose symbol is not of the file `file`, in their order.
pub open spec fn elsewhere(pairs: Seq<(SymbolModel, usize)>, file: Seq<char>) -> Seq<
    (SymbolModel, usize),
>
    decreases pairs.len(),
{
    if pairs.len() == 0 {
        Seq::empty()
    } else if pairs.last().0.file != file {
        elsewhere(pairs.drop_last(), file).push(pairs.last())
    } else {
        elsewhere(pairs.drop_last(), file)
    }
}

/// The pairs whose symbol is of the file `file`, in their order.
pub open spec fn touching(pairs: Seq<(SymbolModel, usize)>, file: Seq<char>) -> Seq<
    (SymbolModel, usize),
>
    decreases pairs.len(),
{
    if pairs.len() == 0 {
        Seq::empty()
    } else if pairs.last().0.file == file {
        touching(pairs.drop_last(), file).push(pairs.last())
    } else {
        touching(pairs.drop_last(), file)
    }
}

/// The weights of the pairs, summed; the sum stops at `usize::MAX`.
pub open spec fn total_weight(pairs: Seq<(SymbolModel, usize)>) -> usize
    decreases pairs.len(),
{
    if pairs.len() == 0 {
        0
    } else {
        raised(total_weight(pairs.drop_last()), pairs.last().1)
    }
}

/// The files of the symbols of a list of pairs.
pub open spec fn files_of(pairs: Seq<(SymbolModel, usize)>) -> Seq<Seq<char>> {
    Seq::new(pairs.len(), |i: int| pairs[i].0.file)
}

/// No pair of `elsewhere` is of the file.
pub proof fn lemma_elsewhere(pairs: Seq<(SymbolModel, usize)>, file: Seq<char>)
    ensures
        forall|i: int|
            0 <= i < elsewhere(pairs, file).len() ==> (#[trigger] elsewhere(pairs, file)[i]).0.file
                != file,
    decreases pairs.len(),
{
    if pairs.len() > 0 {
        lemma_elsewhere(pairs.drop_last(), file);
    }
}

impl GraphModel {
    /// What relates the file `file` to others: the references to its
    /// definitions elsewhere, then the definitions elsewhere of its
    /// references, each with what it adds to a score.
    pub open spec fn observed(self, file: Seq<char>) -> Seq<(SymbolModel, usize)> {
        elsewhere(
            incoming(
                self,
                self.list_definitions(file),
                self.list_definitions(file).len() as usize,
            ) + outgoing(self, self.list_references(file)),
            file,
        )
    }

    /// The relation of the file `file` to the file `other`.
    pub open spec fn related_file(self, file: Seq<char>, other: Seq<char>) -> RelatedFileModel {
        RelatedFileModel {
            name: other,
            score: total_weight(touching(self.observed(file), other)),
            defs: self.list_definitions(other).len() as usize,
            refs: self.list_references(other).len() as usize,
            related_symbols: touching(self.observed(file), other),
        }
    }

    /// The relations of the file `file`, in the order in which the related
    /// files are first met.
    pub open spec fn relations_met(self, file: Seq<char>) -> Seq<RelatedFileModel> {
        let names = distinct(files_of(self.observed(file)));
        Seq::new(names.len(), |i: int| self.related_file(file, names[i]))
    }

    /// The files related to `file`, the highest score first, equal scores
    /// in the order in which the files are first met; none for a file that
    /// is not in the graph.
    pub open spec fn related_files(self, file: Seq<char>) -> Seq<RelatedFileModel> {
        if !self.files.contains_key(file) {
            Seq::empty()
        } else {
            let met = self.relations_met(file);
            let order = order_desc(Seq::new(met.len(), |i: int| met[i].score));
            Seq::new(met.len(), |k: int| met[order[k] as int])
        }
    }
}

/// The symbols that start at the byte `start_byte`, in their order.
pub open spec fn starting_at(symbols: Seq<SymbolModel>, start_byte: usize) -> Seq<SymbolModel>
    decreases symbols.len(),
{
    if symbols.len() == 0 {
        Seq::empty()
    } else if symbols.last().range.start_byte == start_byte {
        starting_at(symbols.drop_last(), start_byte).push(symbols.last())
    } else {
        starting_at(symbols.drop_last(), start_byte)
    }
}

/// The pairs with each symbol replaced by its identifier.
pub open spec fn identified(pairs: Seq<(SymbolModel, usize)>) -> Seq<(Seq<char>, usize)> {
    Seq::new(pairs.len(), |i: int| (pairs[i].0.id(), pairs[i].1))
}

impl GraphView {
    /// The files with symbols, each once.
    pub open spec fn files(self) -> Seq<Seq<char>> {
        distinct(paths_of(self.contexts))
    }

    /// The symbols related to `s`: the references and imports linked to a
    /// definition, the definitions linked to a reference, each with the
    /// weight of the link.
    pub open spec fn related_symbols(self, s: SymbolModel) -> Seq<(SymbolModel, usize)> {
        match s.kind {
            SymbolKind::DEF => pairs_of_kinds(
                self.symbols.symbol_neighbors(s.id()),
                SymbolKind::REF,
                SymbolKind::IMPORT,
            ),
            SymbolKind::REF => pairs_of_kinds(
                self.symbols.symbol_neighbors(s.id()),
                SymbolKind::DEF,
                SymbolKind::DEF,
            ),
            _ => Seq::empty(),
        }
    }

    /// The index of all relations. The files are numbered from zero in
    /// lexicographic order; relations and definitions get the numbers that
    /// follow, in the order in which they are met: file after file, related
    /// file after related file.
    pub open spec fn list_all_relations(self) -> RelationListModel {
        let files = sorted_names(self.files());
        let done = with_files(self.symbols, files, files.len());
        RelationListModel {
            file_nodes: Seq::new(
                files.len(),
                |i: int|
                    FileNodeModel {
                        id: i as usize,
                        kind: LineKind::FileNode,
                        name: files[i],
                        issues: self.history.issues_of(files[i]),
                    },
            ),
            file_relations: done.relations,
            symbol_nodes: done.nodes,
        }
    }

    /// The symbols related to the symbol of the file `path` that starts at
    /// `start_byte`, each by its identifier with the weight of the link:
    /// for the first such symbol among those of the file, the symbols
    /// linked to it if it is a definition or a reference.
    pub open spec fn symbol_relations(self, path: Seq<char>, start_byte: usize) -> Seq<
        (Seq<char>, usize),
    > {
        let at = starting_at(self.symbols.list_symbols(path), start_byte);
        if at.len() == 0 || (at[0].kind != SymbolKind::DEF && at[0].kind != SymbolKind::REF) {
            Seq::empty()
        } else {
            identified(self.symbols.symbol_neighbors(at[0].id()))
        }
    }

    /// The linked pairs of a definition of `src` and a reference of `dst`;
    /// none unless both are files with symbols.
    pub open spec fn pairs_between_files(self, src: Seq<char>, dst: Seq<char>) -> Seq<
        (SymbolModel, SymbolModel),
    > {
        if self.files().contains(src) && self.files().contains(dst) {
            self.symbols.pairs_between_files(src, dst)
        } else {
            Seq::empty()
        }
    }
}

/// The index of all relations while it is built.
struct IndexBuilder {
    relations: Vec<FileRelation>,
    nodes: Vec<SymbolNode>,
    keys: Vec<String>,
    /// The place of each key.
    found: NameIndex,
    next: usize,
}

impl View for IndexBuilder {
    type V = Interned;

    closed spec fn view(&self) -> Interned {
        Interned {
            relations: self.relations.deep_view(),
            nodes: self.nodes.deep_view(),
            keys: self.keys.deep_view(),
            next: self.next,
        }
    }
}

impl IndexBuilder {
    /// There is a key for each definition, and each key is found at its
    /// place.
    spec fn wf(&self) -> bool {
        &&& self.nodes.len() == self.keys.len()
        &&& self.found.wf()
        &&& places(self.found@, self.keys.deep_view())
    }

    /// The number of the definition `symbol`, which gets a new one unless
    /// it is in the index already.
    fn intern(&mut self, symbol: &Symbol) -> (number: usize)
        requires
            old(self).wf(),
        ensures
            final(self).wf(),
            number == number_of(old(self)@, symbol@),
            final(self)@ == interned(old(self)@, symbol@),
    {
        let key = symbol.id();
        proof {
            lemma_place_of(self.keys.deep_view(), key@);
            assert(slot_of(self.found@, key@) == place_of(self.keys.deep_view(), key@));
        }
        match self.found.get(&key) {
            Some(i) => {
                assert(self.nodes.deep_view()[i as int] == self.nodes[i as int]@);
                self.nodes[i].id
            },
            None => {
                let number = self.next;
                let ghost nodes = self.nodes.deep_view();
                let ghost keys = self.keys.deep_view();
                self.nodes.push(
                    SymbolNode {
                        id: number,
                        kind: LineKind::SymbolNode,
                        name: symbol.name.clone(),
                        range: symbol.range,
                    },
                );
                let ghost found = self.found@;
                self.found.insert(key.clone(), self.keys.len());
                self.keys.push(key);
                self.next = self.next.saturating_add(1);
                proof {
                    assert(self.nodes.deep_view() =~= nodes.push(
                        SymbolNodeModel {
                            id: number,
                            kind: LineKind::SymbolNode,
                            name: symbol@.name,
                            range: symbol@.range,
                        },
                    ));
                    assert(self.keys.deep_view() =~= keys.push(symbol@.id()));
                    assert(self.keys.deep_view().drop_last() =~= keys);
                    assert forall|x: Seq<char>| #[trigger]
                        slot_of(self.found@, x) == place_of(self.keys.deep_view(), x) by {
                        assert(slot_of(found, x) == place_of(keys, x));
                    }
                }
                number
            },
        }
    }

    /// Enters the relation of the file number `src` to a related file.
    /// `files` holds the place of each file.
    fn enter(
        &mut self,
        files: &NameIndex,
        Ghost(names): Ghost<Seq<Seq<char>>>,
        src: usize,
        related: &RelatedFileContext,
    )
        requires
            old(self).wf(),
            files.wf(),
            places(files@, names),
        ensures
            final(self).wf(),
            final(self)@ == with_relation(old(self)@, names, src, related@),
    {
        assert(slot_of(files@, related.name@) == place_of(names, related.name@));
        let dst = match files.get(&related.name) {
            Some(dst) => dst,
            None => {
                return ;
            },
        };
        let ghost start = self@;
        let ghost symbols = related.related_symbols.deep_view();
        let mut numbers: Vec<usize> = Vec::new();
        let mut i: usize = 0;
        while i < related.related_symbols.len()
            invariant
                i <= related.related_symbols.len(),
                self.wf(),
                symbols == related.related_symbols.deep_view(),
                self@ == interned_all(start, symbols.take(i as int)),
                numbers@ == numbers_of(start, symbols.take(i as int)),
            decreases related.related_symbols.len() - i,
        {
            proof {
                assert(symbols.take(i + 1).drop_last() =~= symbols.take(i as int));
                assert(symbols.take(i + 1).last() == related.related_symbols[i as int]@);
            }
            let symbol = &related.related_symbols[i].symbol;
            if symbol.kind == SymbolKind::DEF {
                let number = self.intern(symbol);
                if !has_number(&numbers, number) {
                    numbers.push(number);
                }
            }
            i += 1;
        }
        assert(symbols.take(related.related_symbols.len() as int) =~= symbols);
        let ghost relations = self.relations.deep_view();
        self.relations.push(
            FileRelation { id: self.next, kind: LineKind::FileRelation, src, dst, symbols: numbers },
        );
        proof {
            assert(self.relations.deep_view() =~= relations.push(
                FileRelationModel {
                    id: self.next,
                    kind: LineKind::FileRelation,
                    src,
                    dst,
                    symbols: numbers@,
                },
            ));
        }
        self.next = self.next.saturating_add(1);
    }
}

/// Whether `numbers` holds `number`.
fn has_number(numbers: &Vec<usize>, number: usize) -> (r: bool)
    ensures
        r == numbers@.contains(number),
{
    let mut i: usize = 0;
    while i < numbers.len()
        invariant
            i <= numbers.len(),
            forall|k: int| 0 <= k < i ==> numbers@[k] != number,
        decreases numbers.len() - i,
    {
        if numbers[i] == number {
            return true;
        }
        i += 1;
    }
    false
}

// Read API
impl Graph {
    /// The files with symbols, each once, in the order of the build.
    pub fn files(&self) -> (r: Vec<String>)
        ensures
            r.deep_view() == self@.files(),
    {
        let contexts = self.file_contexts();
        let mut paths: Vec<String> = Vec::new();
        let mut i: usize = 0;
        while i < contexts.len()
            invariant
                i <= contexts.len(),
                paths.len() == i,
                forall|k: int| 0 <= k < i ==> (#[trigger] paths[k])@ == contexts[k].path@,
            decreases contexts.len() - i,
        {
            paths.push(contexts[i].path.clone());
            i += 1;
        }
        assert(paths.deep_view() =~= paths_of(contexts.deep_view()));
        distinct_names(&paths)
    }

    /// The symbols related to `symbol`, each with the weight of the link:
    /// the references of a definition, the definitions of a reference,
    /// nothing for a symbol of another kind.
    pub fn related_symbols(&self, symbol: Symbol) -> (r: Vec<(Symbol, usize)>)
        requires
            self.wf(),
        ensures
            r.deep_view() == self@.related_symbols(symbol@),
            symbol.kind == SymbolKind::DEF ==> forall|i: int|
                0 <= i < r.len() ==> (#[trigger] r.deep_view()[i]).0.kind == SymbolKind::REF
                    || r.deep_view()[i].0.kind == SymbolKind::IMPORT,
            symbol.kind == SymbolKind::REF ==> forall|i: int|
                0 <= i < r.len() ==> (#[trigger] r.deep_view()[i]).0.kind == SymbolKind::DEF,
    {
        proof {
            lemma_pairs_of_kinds(
                self@.symbols.symbol_neighbors(symbol@.id()),
                SymbolKind::REF,
                SymbolKind::IMPORT,
            );
            lemma_pairs_of_kinds(
                self@.symbols.symbol_neighbors(symbol@.id()),
                SymbolKind::DEF,
                SymbolKind::DEF,
            );
        }
        match symbol.kind {
            SymbolKind::DEF => keep_kinds(
                self.symbol_graph().list_references_by_definition(&symbol.id()),
                SymbolKind::REF,
                SymbolKind::IMPORT,
            ),
            SymbolKind::REF => keep_kinds(
                self.symbol_graph().list_definitions_by_reference(&symbol.id()),
                SymbolKind::DEF,
                SymbolKind::DEF,
            ),
            _ => {
                let none: Vec<(Symbol, usize)> = Vec::new();
                assert(none.deep_view() =~= Seq::<(SymbolModel, usize)>::empty());
                none
            },
        }
    }

    /// Adds to `out` the symbols linked to each of `symbols` that are of
    /// the kind `kind`.
    fn gather(&self, symbols: &Vec<Symbol>, kind: SymbolKind, count: usize, out: &mut Vec<RelatedSymbol>)
        requires
            self.wf(),
        ensures
            kind == SymbolKind::REF ==> final(out).deep_view() == old(out).deep_view() + incoming(
                self@.symbols,
                symbols.deep_view(),
                count,
            ),
            kind == SymbolKind::DEF && count == 0 ==> final(out).deep_view() == old(
                out,
            ).deep_view() + outgoing(self@.symbols, symbols.deep_view()),
    {
        let ghost m = self@.symbols;
        let ghost base = out.deep_view();
        let mut i: usize = 0;
        proof {
            assert(base + Seq::<(SymbolModel, usize)>::empty() =~= base);
        }
        while i < symbols.len()
            invariant
                i <= symbols.len(),
                self.wf(),
                m == self@.symbols,
                kind == SymbolKind::REF ==> out.deep_view() == base + incoming(
                    m,
                    symbols.deep_view().take(i as int),
                    count,
                ),
                kind == SymbolKind::DEF && count == 0 ==> out.deep_view() == base + outgoing(
                    m,
                    symbols.deep_view().take(i as int),
                ),
            decreases symbols.len() - i,
        {
            proof {
                assert(symbols.deep_view().take(i + 1).drop_last() =~= symbols.deep_view().take(
                    i as int,
                ));
                assert(symbols.deep_view().take(i + 1).last() == symbols[i as int]@);
            }
            let linked = keep_kinds(
                self.symbol_graph().list_references_by_definition(&symbols[i].id()),
                kind,
                kind,
            );
            let ghost before = out.deep_view();
            let ghost pairs = linked.deep_view();
            let mut j: usize = 0;
            proof {
                assert(before + dampened(pairs.take(0), count) =~= before);
            }
            while j < linked.len()
                invariant
                    j <= linked.len(),
                    pairs == linked.deep_view(),
                    out.deep_view() == before + dampened(pairs.take(j as int), count),
                decreases linked.len() - j,
            {
                let weight = linked[j].1;
                let share = if count == 0 {
                    weight
                } else if weight / count < 1 {
                    1
                } else {
                    weight / count
                };
                let ghost so_far = out.deep_view();
                out.push(RelatedSymbol { symbol: linked[j].0.clone(), weight: share });
                proof {
                    assert(pairs[j as int] == (linked[j as int].0@, linked[j as int].1));
                    assert(out.deep_view() =~= so_far.push((pairs[j as int].0, share)));
                    assert(dampened(pairs.take(j + 1), count) =~= dampened(
                        pairs.take(j as int),
                        count,
                    ).push((pairs[j as int].0, share)));
                }
                j += 1;
            }
            proof {
                assert(pairs.take(linked.len() as int) =~= pairs);
                if count == 0 {
                    assert(dampened(pairs, count) =~= pairs);
                }
            }
            i += 1;
        }
        assert(symbols.deep_view().take(symbols.len() as int) =~= symbols.deep_view());
    }

    /// What relates the file `file_name` to others.
    fn observe(&self, file_name: &String) -> (r: Vec<RelatedSymbol>)
        requires
            self.wf(),
        ensures
            r.deep_view() == self@.symbols.observed(file_name@),
    {
        let ghost m = self@.symbols;
        let graph = self.symbol_graph();
        // other files -> this file, then this file -> other files
        let definitions_in_file = graph.list_definitions(file_name);
        let references_in_file = graph.list_references(file_name);
        let mut seen: Vec<RelatedSymbol> = Vec::new();
        assert(seen.deep_view() =~= Seq::<(SymbolModel, usize)>::empty());
        self.gather(&definitions_in_file, SymbolKind::REF, definitions_in_file.len(), &mut seen);
        self.gather(&references_in_file, SymbolKind::DEF, 0, &mut seen);
        let ghost all = seen.deep_view();
        assert(all =~= incoming(
            m,
            m.list_definitions(file_name@),
            m.list_definitions(file_name@).len() as usize,
        ) + outgoing(m, m.list_references(file_name@)));
        // remove itself
        let mut observed: Vec<RelatedSymbol> = Vec::new();
        let mut i: usize = 0;
        while i < seen.len()
            invariant
                i <= seen.len(),
                all == seen.deep_view(),
                observed.deep_view() == elsewhere(all.take(i as int), file_name@),
            decreases seen.len() - i,
        {
            proof {
                assert(all.take(i + 1).drop_last() =~= all.take(i as int));
                assert(all.take(i + 1).last() == seen[i as int]@);
            }
            if seen[i].symbol.file != *file_name {
                let ghost before = observed.deep_view();
                observed.push(seen[i].clone());
                assert(observed.deep_view() =~= before.push(seen[i as int]@));
            }
            i += 1;
        }
        assert(all.take(seen.len() as int) =~= all);
        observed
    }

    /// The relation to the file `other` that `observed` shows.
    fn relation_to(&self, observed: &Vec<RelatedSymbol>, other: &String) -> (r: RelatedFileContext)
        requires
            self.wf(),
        ensures
            r@ == (RelatedFileModel {
                name: other@,
                score: total_weight(touching(observed.deep_view(), other@)),
                defs: self@.symbols.list_definitions(other@).len() as usize,
                refs: self@.symbols.list_references(other@).len() as usize,
                related_symbols: touching(observed.deep_view(), other@),
            }),
    {
        let ghost obs = observed.deep_view();
        let graph = self.symbol_graph();
        let mut related_symbols: Vec<RelatedSymbol> = Vec::new();
        let mut score: usize = 0;
        let mut j: usize = 0;
        while j < observed.len()
            invariant
                j <= observed.len(),
                obs == observed.deep_view(),
                related_symbols.deep_view() == touching(obs.take(j as int), other@),
                score == total_weight(related_symbols.deep_view()),
            decreases observed.len() - j,
        {
            proof {
                assert(obs.take(j + 1).drop_last() =~= obs.take(j as int));
                assert(obs.take(j + 1).last() == observed[j as int]@);
            }
            if observed[j].symbol.file == *other {
                let ghost before = related_symbols.deep_view();
                related_symbols.push(observed[j].clone());
                score = score.saturating_add(observed[j].weight);
                proof {
                    assert(related_symbols.deep_view() =~= before.push(observed[j as int]@));
                    assert(related_symbols.deep_view().drop_last() =~= before);
                }
            }
            j += 1;
        }
        assert(obs.take(observed.len() as int) =~= obs);
        RelatedFileContext {
            name: other.clone(),
            score,
            defs: graph.list_definitions(other).len(),
            refs: graph.list_references(other).len(),
            related_symbols,
        }
    }

    /// The relations of the file `file_name`, in the order in which the
    /// related files are first met.
    fn relations_met(&self, file_name: &String) -> (r: Vec<RelatedFileContext>)
        requires
            self.wf(),
        ensures
            r.deep_view() == self@.symbols.relations_met(file_name@),
            forall|k: int| 0 <= k < r.len() ==> (#[trigger] r.deep_view()[k]).name != file_name@,
    {
        let ghost m = self@.symbols;
        let observed = self.observe(file_name);
        let ghost obs = observed.deep_view();
        let mut names: Vec<String> = Vec::new();
        let mut i: usize = 0;
        while i < observed.len()
            invariant
                i <= observed.len(),
                names.len() == i,
                forall|k: int| 0 <= k < i ==> (#[trigger] names[k])@ == observed[k]@.0.file,
            decreases observed.len() - i,
        {
            names.push(observed[i].symbol.file.clone());
            i += 1;
        }
        assert(names.deep_view() =~= files_of(obs));
        let others = distinct_names(&names);
        let mut contexts: Vec<RelatedFileContext> = Vec::new();
        let mut k: usize = 0;
        while k < others.len()
            invariant
                k <= others.len(),
                self.wf(),
                m == self@.symbols,
                obs == observed.deep_view(),
                obs == m.observed(file_name@),
                contexts.len() == k,
                forall|j: int|
                    0 <= j < k ==> (#[trigger] contexts[j])@ == m.related_file(
                        file_name@,
                        others.deep_view()[j],
                    ),
            decreases others.len() - k,
        {
            contexts.push(self.relation_to(&observed, &others[k]));
            k += 1;
        }
        proof {
            let met = m.relations_met(file_name@);
            assert(contexts.deep_view() =~= met);
            lemma_elsewhere(
                incoming(
                    m,
                    m.list_definitions(file_name@),
                    m.list_definitions(file_name@).len() as usize,
                ) + outgoing(m, m.list_references(file_name@)),
                file_name@,
            );
            lemma_distinct(files_of(obs));
            assert forall|j: int| 0 <= j < contexts.len() implies (
            #[trigger] contexts.deep_view()[j]).name != file_name@ by {
                let name = others.deep_view()[j];
                assert(contexts.deep_view()[j] == met[j]);
                assert(distinct(files_of(obs)).contains(name));
                assert(files_of(obs).contains(name));
                let w = choose|w: int| 0 <= w < files_of(obs).len() && files_of(obs)[w] == name;
                assert(obs[w].0.file == name);
            }
        }
        contexts
    }

    /// The files related to `file_name`, the most related first: those
    /// with references to its definitions and those with definitions of
    /// its references. A file is not related to itself.
    pub fn related_files(&self, file_name: String) -> (r: Vec<RelatedFileContext>)
        requires
            self.wf(),
        ensures
            r.deep_view() == self@.symbols.related_files(file_name@),
            forall|k: int| 0 <= k < r.len() ==> (#[trigger] r.deep_view()[k]).name != file_name@,
    {
        let ghost m = self@.symbols;
        if !self.symbol_graph().has_file(&file_name) {
            let none: Vec<RelatedFileContext> = Vec::new();
            assert(none.deep_view() =~= Seq::<RelatedFileModel>::empty());
            return none;
        }
        let contexts = self.relations_met(&file_name);
        let ghost met = m.relations_met(file_name@);
        let mut scores: Vec<usize> = Vec::new();
        let mut k: usize = 0;
        while k < contexts.len()
            invariant
                k <= contexts.len(),
                scores.len() == k,
                forall|j: int| 0 <= j < k ==> (#[trigger] scores[j]) == contexts[j]@.score,
            decreases contexts.len() - k,
        {
            scores.push(contexts[k].score);
            k += 1;
        }
        assert(scores@ =~= Seq::new(met.len(), |i: int| met[i].score)) by {
            assert forall|i: int| 0 <= i < scores.len() implies scores@[i] == met[i].score by {
                assert(contexts.deep_view()[i] == contexts[i]@);
            }
        }
        let order = rank_desc(&scores);
        let mut ranked: Vec<RelatedFileContext> = Vec::new();
        let mut at: usize = 0;
        while at < order.len()
            invariant
                at <= order.len(),
                order.len() == contexts.len(),
                is_ranking(order@, scores@, scores.len() as int),
                scores.len() == contexts.len(),
                ranked.len() == at,
                forall|j: int| 0 <= j < at ==> (#[trigger] ranked[j])@ == contexts[order@[j] as int]@,
            decreases order.len() - at,
        {
            ranked.push(contexts[order[at]].clone());
            at += 1;
        }
        proof {
            assert forall|j: int| 0 <= j < ranked.len() implies #[trigger] ranked.deep_view()[j]
                == met[order@[j] as int] by {
                assert(ranked[j]@ == contexts[order@[j] as int]@);
                assert(contexts.deep_view()[order@[j] as int] == contexts[order@[j] as int]@);
            }
            assert(ranked.deep_view() =~= m.related_files(file_name@));
        }
        ranked
    }

    /// The index of all relations between the files.
    pub fn list_all_relations(&self) -> (r: RelationList)
        requires
            self.wf(),
        ensures
            r@ == self@.list_all_relations(),
    {
        let ghost m = self@.symbols;
        let files = sort_names(self.files());
        let ghost names = files.deep_view();
        let mut file_nodes: Vec<FileNode> = Vec::new();
        let mut i: usize = 0;
        while i < files.len()
            invariant
                i <= files.len(),
                names == files.deep_view(),
                file_nodes.len() == i,
                forall|k: int|
                    0 <= k < i ==> (#[trigger] file_nodes[k])@ == (FileNodeModel {
                        id: k as usize,
                        kind: LineKind::FileNode,
                        name: names[k],
                        issues: self@.history.issues_of(names[k]),
                    }),
            decreases files.len() - i,
        {
            file_nodes.push(
                FileNode {
                    id: i,
                    kind: LineKind::FileNode,
                    name: files[i].clone(),
                    issues: self.list_file_issues(files[i].clone()),
                },
            );
            i += 1;
        }
        let file_places = places_of(&files);
        let mut index = IndexBuilder {
            relations: Vec::new(),
            nodes: Vec::new(),
            keys: Vec::new(),
            found: NameIndex::new(),
            next: files.len(),
        };
        assert(index.keys.deep_view() =~= Seq::<Seq<char>>::empty());
        assert(index@ == with_files(m, names, 0)) by {
            assert(index@.relations =~= Seq::<FileRelationModel>::empty());
            assert(index@.nodes =~= Seq::<SymbolNodeModel>::empty());
            assert(index@.keys =~= Seq::<Seq<char>>::empty());
        }
        let mut src: usize = 0;
        while src < files.len()
            invariant
                src <= files.len(),
                self.wf(),
                m == self@.symbols,
                names == files.deep_view(),
                file_places.wf(),
                places(file_places@, names),
                index.wf(),
                index@ == with_files(m, names, src as nat),
            decreases files.len() - src,
        {
            let related_files = self.related_files(files[src].clone());
            let ghost base = index@;
            let ghost related = related_files.deep_view();
            let mut k: usize = 0;
            while k < related_files.len()
                invariant
                    k <= related_files.len(),
                    names == files.deep_view(),
                    related == related_files.deep_view(),
                    file_places.wf(),
                    places(file_places@, names),
                    index.wf(),
                    index@ == with_relations(base, names, src, related.take(k as int)),
                decreases related_files.len() - k,
            {
                proof {
                    assert(related.take(k + 1).drop_last() =~= related.take(k as int));
                    assert(related.take(k + 1).last() == related_files[k as int]@);
                }
                index.enter(&file_places, Ghost(names), src, &related_files[k]);
                k += 1;
            }
            assert(related.take(related_files.len() as int) =~= related);
            src += 1;
        }
        let list = RelationList {
            file_nodes,
            file_relations: index.relations,
            symbol_nodes: index.nodes,
        };
        assert(list@.file_nodes =~= self@.list_all_relations().file_nodes);
        list
    }

    /// The symbols related to the symbol of the file `path` that starts at
    /// `start_byte`, each by its identifier with the weight of the link.
    pub fn symbol_relations(&self, path: String, start_byte: usize) -> (r: Vec<(String, usize)>)
        requires
            self.wf(),
        ensures
            r.deep_view() == self@.symbol_relations(path@, start_byte),
    {
        let symbols = self.symbol_graph().list_symbols(&path);
        let ghost all = symbols.deep_view();
        let mut targets: Vec<Symbol> = Vec::new();
        let mut i: usize = 0;
        while i < symbols.len()
            invariant
                i <= symbols.len(),
                all == symbols.deep_view(),
                targets.deep_view() == starting_at(all.take(i as int), start_byte),
            decreases symbols.len() - i,
        {
            proof {
                assert(all.take(i + 1).drop_last() =~= all.take(i as int));
                assert(all.take(i + 1).last() == symbols[i as int]@);
            }
            if symbols[i].range.start_byte == start_byte {
                let ghost before = targets.deep_view();
                targets.push(symbols[i].clone());
                assert(targets.deep_view() =~= before.push(symbols[i as int]@));
            }
            i += 1;
        }
        assert(all.take(symbols.len() as int) =~= all);
        let mut out: Vec<(String, usize)> = Vec::new();
        if targets.len() == 0 {
            assert(out.deep_view() =~= Seq::<(Seq<char>, usize)>::empty());
            return out;
        }
        // only one
        let target = &targets[0];
        assert(targets.deep_view()[0] == target@);
        let linked = match target.kind {
            SymbolKind::DEF => self.symbol_graph().list_references_by_definition(&target.id()),
            SymbolKind::REF => self.symbol_graph().list_definitions_by_reference(&target.id()),
            _ => {
                assert(out.deep_view() =~= Seq::<(Seq<char>, usize)>::empty());
                return out;
            },
        };
        let mut k: usize = 0;
        while k < linked.len()
            invariant
                k <= linked.len(),
                out.len() == k,
                forall|j: int|
                    0 <= j < k ==> (#[trigger] out[j]).0@ == linked[j].0@.id() && out[j].1
                        == linked[j].1,
            decreases linked.len() - k,
        {
            out.push((linked[k].0.id(), linked[k].1));
            k += 1;
        }
        assert(out.deep_view() =~= identified(linked.deep_view()));
        out
    }

    /// The symbol with the identifier `id`, if the graph has it.
    pub fn symbol_by_id(&self, id: &String) -> (r: Option<Symbol>)
        requires
            self.wf(),
        ensures
            r is Some <==> self@.symbols.symbols.contains_key(id@),
            r is Some ==> r.unwrap()@.id() == id@,
    {
        self.symbol_graph().symbol(id)
    }

    /// The issues that the history relates to a file; none for a file
    /// without history.
    pub fn list_file_issues(&self, file_name: String) -> (r: Vec<String>)
        ensures
            r.deep_view() == self@.history.issues_of(file_name@),
    {
        match history_issues_of_file(self.relation_graph(), &file_name) {
            Some(issues) => issues,
            None => {
                let none: Vec<String> = Vec::new();
                assert(none.deep_view() =~= Seq::<Seq<char>>::empty());
                none
            },
        }
    }

    /// The commits that the history relates to a file; none for a file
    /// without history.
    pub fn list_file_commits(&self, file_name: String) -> (r: Vec<String>)
        ensures
            r.deep_view() == self@.history.commits_of(file_name@),
    {
        match history_commits_of_file(self.relation_graph(), &file_name) {
            Some(commits) => commits,
            None => {
                let none: Vec<String> = Vec::new();
                assert(none.deep_view() =~= Seq::<Seq<char>>::empty());
                none
            },
        }
    }

    /// The symbols, commits and issues of a file.
    pub fn file_metadata(&self, file_name: String) -> (r: FileMetadata)
        requires
            self.wf(),
        ensures
            r.path@ == file_name@,
            r.symbols.deep_view() == self@.symbols.list_symbols(file_name@),
            r.commits.deep_view() == self@.history.commits_of(file_name@),
            r.issues.deep_view() == self@.history.issues_of(file_name@),
    {
        let symbols = self.symbol_graph().list_symbols(&file_name);
        let commits = self.list_file_commits(file_name.clone());
        let issues = self.list_file_issues(file_name.clone());
        FileMetadata { path: file_name, commits, issues, symbols }
    }

    /// The pairs of a definition of `src_file` and a reference of
    /// `dst_file` that are linked; none unless both are files with symbols.
    pub fn pairs_between_files(&self, src_file: String, dst_file: String) -> (r: Vec<DefRefPair>)
        requires
            self.wf(),
        ensures
            r.deep_view() == self@.pairs_between_files(src_file@, dst_file@),
    {
        let files = self.files();
        if !has_name(&files, &src_file) || !has_name(&files, &dst_file) {
            let none: Vec<DefRefPair> = Vec::new();
            assert(none.deep_view() =~= Seq::<(SymbolModel, SymbolModel)>::empty());
            return none;
        }
        self.symbol_graph().pairs_between_files(&src_file, &dst_file)
    }
}

} // verus!

//! Tables from fully-qualified names to the symbols that bear them.

use crate::index::NameIndex;
use crate::symbol::{Symbol, SymbolKind, SymbolModel};
use vstd::prelude::*;

verus! {

/// The symbols of `table` under `name`; none for a name it does not hold.
pub open spec fn row_of(table: Map<Seq<char>, Seq<SymbolModel>>, name: Seq<char>) -> Seq<
    SymbolModel,
> {
    if table.contains_key(name) {
        table[name]
    } else {
        Seq::empty()
    }
}

/// The table of the symbols of the kind `kind` among `symbols`: under each
/// name, the symbols of that name in their order.
pub open spec fn tabled(symbols: Seq<SymbolModel>, kind: SymbolKind) -> Map<
    Seq<char>,
    Seq<SymbolModel>,
>
    decreases symbols.len(),
{
    if symbols.len() == 0 {
        Map::empty()
    } else {
        let rest = tabled(symbols.drop_last(), kind);
        let s = symbols.last();
        if s.kind == kind {
            rest.insert(s.name, row_of(rest, s.name).push(s))
        } else {
            rest
        }
    }
}

/// The part of `table` whose names have exactly one symbol.
pub open spec fn singles(table: Map<Seq<char>, Seq<SymbolModel>>) -> Map<
    Seq<char>,
    Seq<SymbolModel>,
> {
    Map::new(|n: Seq<char>| table.contains_key(n) && table[n].len() == 1, |n: Seq<char>| table[n])
}

/// A table holds a name exactly when a symbol of the kind bears it, and
/// every symbol under a name is of the kind and bears the name.
pub proof fn lemma_tabled(symbols: Seq<SymbolModel>, kind: SymbolKind)
    ensures
        forall|n: Seq<char>| #[trigger]
            tabled(symbols, kind).contains_key(n) <==> exists|i: int|
                0 <= i < symbols.len() && (#[trigger] symbols[i]).kind == kind && symbols[i].name
                    == n,
        forall|n: Seq<char>, k: int|
            tabled(symbols, kind).contains_key(n) && 0 <= k < tabled(symbols, kind)[n].len() ==> (
            #[trigger] tabled(symbols, kind)[n][k]).kind == kind && tabled(symbols, kind)[n][k].name
                == n && symbols.contains(tabled(symbols, kind)[n][k]),
        forall|n: Seq<char>| #[trigger]
            tabled(symbols, kind).contains_key(n) ==> tabled(symbols, kind)[n].len() > 0,
    decreases symbols.len(),
{
    if symbols.len() > 0 {
        let rest = symbols.drop_last();
        let s = symbols.last();
        lemma_tabled(rest, kind);
        let t = tabled(symbols, kind);
        let r = tabled(rest, kind);
        assert forall|n: Seq<char>| #[trigger] t.contains_key(n) implies exists|i: int|
            0 <= i < symbols.len() && (#[trigger] symbols[i]).kind == kind && symbols[i].name
                == n by {
            if s.kind == kind && s.name == n {
                assert(symbols[symbols.len() - 1] == s);
            } else {
                assert(r.contains_key(n));
                let i = choose|i: int|
                    0 <= i < rest.len() && (#[trigger] rest[i]).kind == kind && rest[i].name == n;
                assert(symbols[i] == rest[i]);
            }
        }
        assert forall|n: Seq<char>|
            (exists|i: int|
                0 <= i < symbols.len() && (#[trigger] symbols[i]).kind == kind && symbols[i].name
                    == n) implies #[trigger] t.contains_key(n) by {
            let i = choose|i: int|
                0 <= i < symbols.len() && (#[trigger] symbols[i]).kind == kind && symbols[i].name
                    == n;
            if i < rest.len() {
                assert(rest[i] == symbols[i]);
                assert(r.contains_key(n));
            }
        }
        assert forall|n: Seq<char>, k: int| t.contains_key(n) && 0 <= k < t[n].len() implies (
        #[trigger] t[n][k]).kind == kind && t[n][k].name == n && symbols.contains(t[n][k]) by {
            if s.kind == kind && s.name == n && k == t[n].len() - 1 {
                assert(symbols[symbols.len() - 1] == s);
            } else {
                assert(r.contains_key(n));
                assert(t[n][k] == r[n][k]);
                let i = choose|i: int| 0 <= i < rest.len() && rest[i] == r[n][k];
                assert(symbols[i] == rest[i]);
            }
        }
    }
}

/// A table from names to the symbols that bear them, in the order in which
/// they were added.
pub struct SymbolTable {
    index: NameIndex,
    names: Vec<String>,
    rows: Vec<Vec<Symbol>>,
}

impl View for SymbolTable {
    type V = Map<Seq<char>, Seq<SymbolModel>>;

    closed spec fn view(&self) -> Map<Seq<char>, Seq<SymbolModel>> {
        Map::new(
            |n: Seq<char>| self.index@.contains_key(n),
            |n: Seq<char>| self.rows@[self.index@[n] as int].deep_view(),
        )
    }
}

impl SymbolTable {
    /// The index names each row once, and a row holds symbols of its name.
    pub closed spec fn wf(&self) -> bool {
        &&& self.index.wf()
        &&& self.names@.len() == self.rows@.len()
        &&& forall|n: Seq<char>| #[trigger]
            self.index@.contains_key(n) ==> self.index@[n] < self.rows@.len()
                && self.names@[self.index@[n] as int]@ == n
        &&& forall|i: int|
            0 <= i < self.names@.len() ==> self.index@.contains_key((#[trigger] self.names@[i])@)
                && self.index@[self.names@[i]@] == i
        &&& forall|i: int, k: int|
            0 <= i < self.rows@.len() && 0 <= k < self.rows@[i].len() ==> (
            #[trigger] self.rows@[i][k])@.name == self.names@[i]@
    }

    pub fn new() -> (r: SymbolTable)
        ensures
            r.wf(),
            r@ == Map::<Seq<char>, Seq<SymbolModel>>::empty(),
    {
        let r = SymbolTable { index: NameIndex::new(), names: Vec::new(), rows: Vec::new() };
        assert(r@ =~= Map::<Seq<char>, Seq<SymbolModel>>::empty());
        r
    }

    /// Whether the table holds symbols under `name`.
    pub fn contains_key(&self, name: &String) -> (r: bool)
        requires
            self.wf(),
        ensures
            r == self@.contains_key(name@),
    {
        self.index.contains_key(name)
    }

    /// The symbols under `name`.
    pub fn get(&self, name: &String) -> (r: Option<&Vec<Symbol>>)
        requires
            self.wf(),
        ensures
            r is Some <==> self@.contains_key(name@),
            r is Some ==> r.unwrap().deep_view() == self@[name@],
    {
        match self.index.get(name) {
            Some(i) => Some(&self.rows[i]),
            None => None,
        }
    }

    /// Adds `symbol` at the end of the symbols under its name.
    pub fn add(&mut self, symbol: Symbol)
        requires
            old(self).wf(),
        ensures
            final(self).wf(),
            final(self)@ == old(self)@.insert(
                symbol@.name,
                row_of(old(self)@, symbol@.name).push(symbol@),
            ),
    {
        let ghost s = symbol@;
        match self.index.get(&symbol.name) {
            Some(i) => {
                let ghost before = self.rows@[i as int].deep_view();
                let mut row: Vec<Symbol> = Vec::new();
                std::mem::swap(&mut row, &mut self.rows[i]);
                row.push(symbol);
                self.rows[i] = row;
                assert(self.rows@[i as int].deep_view() =~= before.push(s));
                assert forall|j: int, k: int|
                    0 <= j < self.rows@.len() && 0 <= k < self.rows@[j].len() implies (
                #[trigger] self.rows@[j][k])@.name == self.names@[j]@ by {
                    if j == i {
                        if k < before.len() {
                            assert(self.rows@[j][k] == old(self).rows@[j][k]);
                        }
                    } else {
                        assert(self.rows@[j] == old(self).rows@[j]);
                    }
                }
                assert(self@ =~= old(self)@.insert(s.name, row_of(old(self)@, s.name).push(s))) by {
                    assert forall|n: Seq<char>| self@.contains_key(n) implies #[trigger] self@[n]
                        == old(self)@.insert(s.name, row_of(old(self)@, s.name).push(s))[n] by {
                        if n != s.name {
                            assert(self.index@[n] != i);
                            assert(self.rows@[self.index@[n] as int] == old(self).rows@[self.index@[n] as int]);
                        }
                    }
                }
            },
            None => {
                let i = self.rows.len();
                self.index.insert(symbol.name.clone(), i);
                self.names.push(symbol.name.clone());
                let mut row: Vec<Symbol> = Vec::new();
                row.push(symbol);
                assert(row.deep_view() =~= Seq::<SymbolModel>::empty().push(s));
                self.rows.push(row);
                assert forall|n: Seq<char>| #[trigger] self.index@.contains_key(n) implies self.index@[n]
                    < self.rows@.len() && self.names@[self.index@[n] as int]@ == n by {
                    if n != s.name {
                        assert(old(self).index@.contains_key(n));
                    }
                }
                assert forall|j: int, k: int|
                    0 <= j < self.rows@.len() && 0 <= k < self.rows@[j].len() implies (
                #[trigger] self.rows@[j][k])@.name == self.names@[j]@ by {
                    if j < i {
                        assert(self.rows@[j] == old(self).rows@[j]);
                    }
                }
                assert(self@ =~= old(self)@.insert(s.name, row_of(old(self)@, s.name).push(s))) by {
                    assert forall|n: Seq<char>| self@.contains_key(n) implies #[trigger] self@[n]
                        == old(self)@.insert(s.name, row_of(old(self)@, s.name).push(s))[n] by {
                        if n != s.name {
                            assert(old(self).index@.contains_key(n));
                            assert(self.rows@[self.index@[n] as int] == old(self).rows@[self.index@[n] as int]);
                        }
                    }
                }
            },
        }
    }

    /// The part of the table whose names have exactly one symbol.
    pub fn unique(&self) -> (r: SymbolTable)
        requires
            self.wf(),
        ensures
            r.wf(),
            r@ == singles(self@),
    {
        let mut out = SymbolTable::new();
        let mut i: usize = 0;
        while i < self.rows.len()
            invariant
                self.wf(),
                out.wf(),
                i <= self.rows.len(),
                out@ == Map::new(
                    |n: Seq<char>|
                        self@.contains_key(n) && self.index@[n] < i && self@[n].len() == 1,
                    |n: Seq<char>| self@[n],
                ),
            decreases self.rows.len() - i,
        {
            let ghost before = out@;
            if self.rows[i].len() == 1 {
                let symbol = self.rows[i][0].clone();
                let ghost name = self.names@[i as int]@;
                assert(self.rows@[i as int][0]@.name == name);
                assert(self.index@.contains_key(self.names@[i as int]@));
                assert(!before.contains_key(name));
                out.add(symbol);
                assert(self@[name] =~= Seq::<SymbolModel>::empty().push(symbol@));
                assert(out@ =~= Map::new(
                    |n: Seq<char>|
                        self@.contains_key(n) && self.index@[n] < i + 1 && self@[n].len() == 1,
                    |n: Seq<char>| self@[n],
                ));
            } else {
                assert(self.index@.contains_key(self.names@[i as int]@));
                assert(out@ =~= Map::new(
                    |n: Seq<char>|
                        self@.contains_key(n) && self.index@[n] < i + 1 && self@[n].len() == 1,
                    |n: Seq<char>| self@[n],
                ));
            }
            i += 1;
        }
        assert(out@ =~= singles(self@));
        out
    }
}

} // verus!

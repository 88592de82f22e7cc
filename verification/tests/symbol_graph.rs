use gossiphs::symbol::{NodeData, NodeType, Point, RangeWrapper, Symbol, SymbolData, SymbolGraph, SymbolKind};

fn range_at(start_byte: usize, row: usize) -> RangeWrapper {
    RangeWrapper {
        start_byte,
        end_byte: start_byte + 3,
        start_point: Point { row, column: 0 },
        end_point: Point { row, column: 3 },
    }
}

fn def(file: &str, name: &str, start: usize) -> Symbol {
    Symbol::new_def(String::from(file), String::from(name), range_at(start, 0))
}

fn reference(file: &str, name: &str, start: usize) -> Symbol {
    Symbol::new_ref(String::from(file), String::from(name), range_at(start, 0))
}

#[test]
fn symbol_id_joins_file_name_kind_and_start_byte() {
    let s = Symbol::new_def(String::from("a.py"), String::from("foo"), range_at(12, 1));
    assert_eq!(s.id(), "a.py:foo:DEF:12:3");
    let r = Symbol::new_ref(String::from("a.py"), String::from("foo"), range_at(0, 0));
    assert_eq!(r.id(), "a.py:foo:REF:0:3");
    assert_eq!(r.kind, SymbolKind::REF);
    assert!(s.is_def());
    assert!(!r.is_def());
}

#[test]
fn symbol_id_writes_the_start_byte_in_decimal() {
    let s = def("f.rs", "x", 1234567890);
    assert_eq!(s.id(), "f.rs:x:DEF:1234567890:1");
    let mut import = def("f.rs", "x", 7);
    import.kind = SymbolKind::IMPORT;
    assert_eq!(import.id(), "f.rs:x:IMPORT:7:1");
    let mut scope = def("f.rs", "", 10);
    scope.kind = SymbolKind::NAMESPACE;
    assert_eq!(scope.id(), "f.rs::NAMESPACE:10:0");
}

#[test]
fn identifiers_tell_file_and_name_apart() {
    // the colon may stand in a file or in a name
    let one = def("a:b", "c", 0);
    let other = def("a", "b:c", 0);
    assert_eq!(one.id(), "a:b:c:DEF:0:1");
    assert_eq!(other.id(), "a:b:c:DEF:0:3");
    assert_ne!(one.id(), other.id());
    let long = def("f", "ééé", 0);
    assert_eq!(long.id(), "f:ééé:DEF:0:3");
}

#[test]
fn same_position_with_other_kind_has_other_id() {
    let d = def("a.go", "main", 13);
    let r = reference("a.go", "main", 13);
    assert_ne!(d.id(), r.id());
}

#[test]
fn get_symbol_gives_the_symbol_of_a_symbol_node_only() {
    let s = def("a.py", "foo", 3);
    let node = NodeData {
        _id: s.id(),
        node_type: NodeType::Symbol(SymbolData { symbol: s.clone() }),
    };
    assert_eq!(node.get_symbol(), Some(s));
    let file = NodeData { _id: String::from("a.py"), node_type: NodeType::File };
    assert_eq!(file.get_symbol(), None);
}

#[test]
fn linked_symbols_are_listed_newest_first() {
    let mut g = SymbolGraph::new();
    let file = String::from("a.py");
    let foo = def("a.py", "foo", 0);
    let bar = def("a.py", "bar", 10);
    g.add_file(&file);
    g.add_symbol(foo.clone());
    g.add_symbol(bar.clone());
    g.link_file_to_symbol(&file, &foo);
    g.link_file_to_symbol(&file, &bar);
    g.link_file_to_symbol(&file, &foo);
    let symbols = g.list_symbols(&file);
    assert_eq!(symbols, vec![bar, foo]);
    assert_eq!(g.node_count(), 3);
    assert_eq!(g.edge_count(), 2);
}

#[test]
fn adding_twice_adds_once() {
    let mut g = SymbolGraph::new();
    let file = String::from("a.py");
    let foo = def("a.py", "foo", 0);
    g.add_file(&file);
    g.add_file(&file);
    assert_eq!(g.node_count(), 1);
    g.add_symbol(foo.clone());
    g.add_symbol(foo.clone());
    assert_eq!(g.node_count(), 2);
    g.link_file_to_symbol(&file, &foo);
    g.link_file_to_symbol(&file, &foo);
    assert_eq!(g.edge_count(), 1);
    let r = reference("b.py", "foo", 5);
    g.add_symbol(r.clone());
    g.link_symbol_to_symbol(&r, &foo);
    g.link_symbol_to_symbol(&r, &foo);
    g.link_symbol_to_symbol(&foo, &r);
    assert_eq!(g.edge_count(), 2);
}

#[test]
fn links_need_both_nodes() {
    let mut g = SymbolGraph::new();
    let file = String::from("a.py");
    let foo = def("a.py", "foo", 0);
    let r = reference("b.py", "foo", 5);
    g.add_file(&file);
    g.link_file_to_symbol(&file, &foo);
    assert_eq!(g.edge_count(), 0);
    g.add_symbol(foo.clone());
    g.link_symbol_to_symbol(&r, &foo);
    g.link_file_to_symbol(&String::from("other.py"), &foo);
    assert_eq!(g.edge_count(), 0);
}

#[test]
fn enhance_adds_to_an_existing_edge_only() {
    let mut g = SymbolGraph::new();
    let foo = def("a.py", "foo", 0);
    let r = reference("b.py", "foo", 5);
    g.add_symbol(foo.clone());
    g.add_symbol(r.clone());
    g.enhance_symbol_to_symbol(&r.id(), &foo.id(), 7);
    assert_eq!(g.edge_count(), 0);
    assert!(g.list_references_by_definition(&foo.id()).is_empty());
    g.link_symbol_to_symbol(&r, &foo);
    assert_eq!(g.list_references_by_definition(&foo.id()), vec![(r.clone(), 0)]);
    g.enhance_symbol_to_symbol(&r.id(), &foo.id(), 7);
    g.enhance_symbol_to_symbol(&foo.id(), &r.id(), 3);
    assert_eq!(g.list_references_by_definition(&foo.id()), vec![(r.clone(), 10)]);
    assert_eq!(g.list_definitions_by_reference(&r.id()), vec![(foo.clone(), 10)]);
    g.enhance_symbol_to_symbol(&r.id(), &String::from("nothing"), 3);
    assert_eq!(g.list_definitions_by_reference(&r.id()), vec![(foo, 10)]);
}

#[test]
fn weights_stop_at_the_largest_number() {
    let mut g = SymbolGraph::new();
    let foo = def("a.py", "foo", 0);
    let r = reference("b.py", "foo", 5);
    g.add_symbol(foo.clone());
    g.add_symbol(r.clone());
    g.link_symbol_to_symbol(&r, &foo);
    g.enhance_symbol_to_symbol(&r.id(), &foo.id(), usize::MAX - 1);
    g.enhance_symbol_to_symbol(&r.id(), &foo.id(), 5);
    assert_eq!(g.list_definitions_by_reference(&r.id()), vec![(foo, usize::MAX)]);
}

#[test]
fn queries_on_unknown_names_are_empty() {
    let g = SymbolGraph::new();
    let nowhere = String::from("nowhere.py");
    assert!(g.list_symbols(&nowhere).is_empty());
    assert!(g.list_definitions(&nowhere).is_empty());
    assert!(g.list_references(&nowhere).is_empty());
    assert!(g.list_references_by_definition(&nowhere).is_empty());
    assert!(g.list_definitions_by_reference(&nowhere).is_empty());
    assert!(g.pairs_between_files(&nowhere, &nowhere).is_empty());
    assert!(!g.has_file(&nowhere));
}

#[test]
fn definitions_and_references_are_told_apart() {
    let mut g = SymbolGraph::new();
    let file = String::from("a.py");
    let foo = def("a.py", "foo", 0);
    let use_bar = reference("a.py", "bar", 20);
    let mut import = def("a.py", "os", 30);
    import.kind = SymbolKind::IMPORT;
    g.add_file(&file);
    for s in [&foo, &use_bar, &import] {
        g.add_symbol(s.clone());
        g.link_file_to_symbol(&file, s);
    }
    assert_eq!(g.list_definitions(&file), vec![foo.clone()]);
    assert_eq!(g.list_references(&file), vec![use_bar.clone()]);
    assert_eq!(g.list_symbols(&file), vec![import, use_bar, foo]);
}

#[test]
fn pairs_between_files_are_the_linked_ones() {
    let mut g = SymbolGraph::new();
    let a = String::from("a.py");
    let b = String::from("b.py");
    let foo = def("a.py", "foo", 0);
    let bar = def("a.py", "bar", 10);
    let use_foo = reference("b.py", "foo", 5);
    let use_bar = reference("b.py", "bar", 15);
    g.add_file(&a);
    g.add_file(&b);
    for s in [&foo, &bar] {
        g.add_symbol(s.clone());
        g.link_file_to_symbol(&a, s);
    }
    for s in [&use_foo, &use_bar] {
        g.add_symbol(s.clone());
        g.link_file_to_symbol(&b, s);
    }
    g.link_symbol_to_symbol(&use_foo, &foo);
    let pairs = g.pairs_between_files(&a, &b);
    assert_eq!(pairs.len(), 1);
    assert_eq!(pairs[0].src_symbol, foo);
    assert_eq!(pairs[0].dst_symbol, use_foo);
    assert!(g.pairs_between_files(&b, &a).is_empty());
    assert!(g.symbols_linked(&foo.id(), &use_foo.id()));
    assert!(!g.symbols_linked(&bar.id(), &use_bar.id()));
}

#[test]
fn a_symbol_linked_to_itself_is_its_own_neighbour_once() {
    let mut g = SymbolGraph::new();
    let foo = def("a.py", "foo", 0);
    g.add_symbol(foo.clone());
    g.link_symbol_to_symbol(&foo, &foo);
    assert_eq!(g.edge_count(), 1);
    assert_eq!(g.list_references_by_definition(&foo.id()), vec![(foo, 0)]);
}

#[test]
fn neighbours_come_outgoing_first_then_incoming_newest_first() {
    let mut g = SymbolGraph::new();
    let hub = def("a.py", "hub", 0);
    let one = reference("b.py", "one", 1);
    let two = reference("b.py", "two", 2);
    let three = reference("b.py", "three", 3);
    let four = reference("b.py", "four", 4);
    for s in [&hub, &one, &two, &three, &four] {
        g.add_symbol(s.clone());
    }
    g.link_symbol_to_symbol(&hub, &one);
    g.link_symbol_to_symbol(&two, &hub);
    g.link_symbol_to_symbol(&hub, &three);
    g.link_symbol_to_symbol(&four, &hub);
    let names: Vec<String> =
        g.list_references_by_definition(&hub.id()).into_iter().map(|p| p.0.name).collect();
    assert_eq!(names, vec!["three", "one", "four", "two"]);
}

use cupido::relation::graph::RelationGraph;
use gossiphs::api::{distinct_names, find_name, keep_kinds, LineKind};
use gossiphs::graph::{FileContext, Graph};
use gossiphs::server::{ServerConfig, DEFAULT_PORT};
use gossiphs::symbol::{Point, RangeWrapper, Symbol, SymbolGraph, SymbolKind};

fn at(start_byte: usize) -> RangeWrapper {
    RangeWrapper {
        start_byte,
        end_byte: start_byte + 3,
        start_point: Point { row: start_byte / 10, column: start_byte % 10 },
        end_point: Point { row: start_byte / 10, column: start_byte % 10 + 3 },
    }
}

fn symbol(kind: SymbolKind, file: &str, name: &str, start: usize) -> Symbol {
    Symbol { file: String::from(file), name: String::from(name), range: at(start), kind }
}

/// `a.py` defines `foo` and `bar`; `b.py` refers to `foo` with weight 10;
/// `c.py` refers to `foo` and to `bar` with weight 5 each.
fn three_files() -> Graph {
    let foo = symbol(SymbolKind::DEF, "a.py", "foo", 0);
    let bar = symbol(SymbolKind::DEF, "a.py", "bar", 20);
    let b_foo = symbol(SymbolKind::REF, "b.py", "foo", 0);
    let c_foo = symbol(SymbolKind::REF, "c.py", "foo", 0);
    let c_bar = symbol(SymbolKind::REF, "c.py", "bar", 10);
    let contexts = vec![
        FileContext { path: String::from("c.py"), symbols: vec![c_foo.clone(), c_bar.clone()] },
        FileContext { path: String::from("a.py"), symbols: vec![foo.clone(), bar.clone()] },
        FileContext { path: String::from("b.py"), symbols: vec![b_foo.clone()] },
    ];
    let mut g = SymbolGraph::new();
    for context in &contexts {
        g.add_file(&context.path);
        for s in &context.symbols {
            g.add_symbol(s.clone());
            g.link_file_to_symbol(&context.path, s);
        }
    }
    for (r, d, weight) in [(&b_foo, &foo, 10), (&c_foo, &foo, 5), (&c_bar, &bar, 5)] {
        g.link_symbol_to_symbol(r, d);
        g.enhance_symbol_to_symbol(&r.id(), &d.id(), weight);
    }
    let mut history = RelationGraph::new();
    for file in ["a.py", "b.py", "c.py"] {
        history.add_file_node(&String::from(file));
    }
    history.add_commit_node(&String::from("c1"));
    history.add_issue_node(&String::from("#7"));
    history.add_edge_file2commit(&String::from("a.py"), &String::from("c1"));
    history.add_edge_file2issue(&String::from("a.py"), &String::from("#7"));
    Graph::assemble(contexts, history, g)
}

#[test]
fn related_files_of_three_python_files() {
    let g = three_files();
    let related: Vec<(String, usize)> =
        g.related_files(String::from("a.py")).into_iter().map(|r| (r.name, r.score)).collect();
    assert_eq!(related, vec![(String::from("b.py"), 5), (String::from("c.py"), 4)]);
    let related: Vec<(String, usize)> =
        g.related_files(String::from("b.py")).into_iter().map(|r| (r.name, r.score)).collect();
    assert_eq!(related, vec![(String::from("a.py"), 10)]);
    let related: Vec<(String, usize)> =
        g.related_files(String::from("c.py")).into_iter().map(|r| (r.name, r.score)).collect();
    assert_eq!(related, vec![(String::from("a.py"), 10)]);
}

#[test]
fn a_file_is_not_related_to_itself() {
    let foo = symbol(SymbolKind::DEF, "a.py", "foo", 0);
    let own = symbol(SymbolKind::REF, "a.py", "foo", 30);
    let other = symbol(SymbolKind::REF, "b.py", "foo", 0);
    let mut g = SymbolGraph::new();
    for file in ["a.py", "b.py"] {
        g.add_file(&String::from(file));
    }
    for s in [&foo, &own, &other] {
        g.add_symbol(s.clone());
        g.link_file_to_symbol(&s.file, s);
    }
    g.link_symbol_to_symbol(&own, &foo);
    g.link_symbol_to_symbol(&other, &foo);
    g.enhance_symbol_to_symbol(&own.id(), &foo.id(), 9);
    let graph = Graph::assemble(Vec::new(), RelationGraph::new(), g);
    let related = graph.related_files(String::from("a.py"));
    assert_eq!(related.len(), 1);
    assert_eq!(related[0].name, "b.py");
    assert_eq!(related[0].score, 1);
    for file in ["a.py", "b.py", "nowhere.py"] {
        assert!(graph.related_files(String::from(file)).iter().all(|r| r.name != file));
    }
}

#[test]
fn related_files_count_the_symbols_of_the_other_file() {
    let g = three_files();
    let related = g.related_files(String::from("a.py"));
    assert_eq!((related[0].defs, related[0].refs), (0, 1));
    assert_eq!((related[1].defs, related[1].refs), (0, 2));
    let symbols: Vec<(String, usize)> =
        related[1].related_symbols.iter().map(|s| (s.symbol.name.clone(), s.weight)).collect();
    assert_eq!(symbols, vec![(String::from("bar"), 2), (String::from("foo"), 2)]);
    let back = g.related_files(String::from("c.py"));
    assert_eq!((back[0].defs, back[0].refs), (2, 0));
    let symbols: Vec<(SymbolKind, String, usize)> = back[0]
        .related_symbols
        .iter()
        .map(|s| (s.symbol.kind, s.symbol.name.clone(), s.weight))
        .collect();
    assert_eq!(
        symbols,
        vec![(SymbolKind::DEF, String::from("bar"), 5), (SymbolKind::DEF, String::from("foo"), 5)]
    );
}

#[test]
fn equal_scores_keep_the_order_in_which_files_are_met() {
    let foo = symbol(SymbolKind::DEF, "a.py", "foo", 0);
    let mut g = SymbolGraph::new();
    g.add_file(&String::from("a.py"));
    g.add_symbol(foo.clone());
    g.link_file_to_symbol(&foo.file, &foo);
    for (file, weight) in [("x.py", 3), ("y.py", 7), ("z.py", 3), ("w.py", 7)] {
        let r = symbol(SymbolKind::REF, file, "foo", 0);
        g.add_file(&r.file);
        g.add_symbol(r.clone());
        g.link_file_to_symbol(&r.file, &r);
        g.link_symbol_to_symbol(&r, &foo);
        g.enhance_symbol_to_symbol(&r.id(), &foo.id(), weight);
    }
    let graph = Graph::assemble(Vec::new(), RelationGraph::new(), g);
    let related: Vec<(String, usize)> =
        graph.related_files(String::from("a.py")).into_iter().map(|r| (r.name, r.score)).collect();
    // the references to `foo` are met newest first: w, z, y, x
    assert_eq!(
        related,
        vec![
            (String::from("w.py"), 7),
            (String::from("y.py"), 7),
            (String::from("z.py"), 3),
            (String::from("x.py"), 3),
        ]
    );
}

#[test]
fn related_symbols_go_by_the_kind_of_the_symbol() {
    let g = three_files();
    let foo = symbol(SymbolKind::DEF, "a.py", "foo", 0);
    let related = g.related_symbols(foo.clone());
    let got: Vec<(String, SymbolKind, usize)> =
        related.into_iter().map(|p| (p.0.file, p.0.kind, p.1)).collect();
    assert_eq!(
        got,
        vec![(String::from("c.py"), SymbolKind::REF, 5), (String::from("b.py"), SymbolKind::REF, 10)]
    );
    let b_foo = symbol(SymbolKind::REF, "b.py", "foo", 0);
    assert_eq!(g.related_symbols(b_foo.clone()), vec![(foo.clone(), 10)]);
    let mut import = foo.clone();
    import.kind = SymbolKind::IMPORT;
    assert!(g.related_symbols(import).is_empty());
    let mut scope = foo.clone();
    scope.kind = SymbolKind::NAMESPACE;
    assert!(g.related_symbols(scope).is_empty());
    assert!(g.related_symbols(symbol(SymbolKind::DEF, "a.py", "nothing", 99)).is_empty());
}

#[test]
fn kinds_are_kept_in_order() {
    let pairs = vec![
        (symbol(SymbolKind::DEF, "a", "d", 0), 1),
        (symbol(SymbolKind::REF, "a", "r", 1), 2),
        (symbol(SymbolKind::IMPORT, "a", "i", 2), 3),
        (symbol(SymbolKind::REF, "a", "s", 3), 4),
    ];
    let names = |first: SymbolKind, second: SymbolKind| -> Vec<String> {
        keep_kinds(pairs.clone(), first, second).into_iter().map(|p| p.0.name).collect()
    };
    assert_eq!(names(SymbolKind::REF, SymbolKind::IMPORT), vec!["r", "i", "s"]);
    assert_eq!(names(SymbolKind::DEF, SymbolKind::DEF), vec!["d"]);
    assert!(names(SymbolKind::NAMESPACE, SymbolKind::NAMESPACE).is_empty());
}

#[test]
fn files_are_listed_once_in_the_order_of_the_build() {
    let g = three_files();
    assert_eq!(g.files(), vec!["c.py", "a.py", "b.py"]);
    let names: Vec<String> = ["b", "a", "b", "c", "a"].iter().map(|s| String::from(*s)).collect();
    assert_eq!(distinct_names(&names), vec!["b", "a", "c"]);
    assert_eq!(find_name(&names, &String::from("a")), Some(1));
    assert_eq!(find_name(&names, &String::from("c")), Some(3));
    assert_eq!(find_name(&names, &String::from("z")), None);
}

#[test]
fn metadata_of_a_file() {
    let g = three_files();
    let meta = g.file_metadata(String::from("a.py"));
    assert_eq!(meta.path, "a.py");
    assert_eq!(meta.commits, vec!["c1"]);
    assert_eq!(meta.issues, vec!["#7"]);
    let names: Vec<&str> = meta.symbols.iter().map(|s| s.name.as_str()).collect();
    assert_eq!(names, vec!["bar", "foo"]);
    let none = g.file_metadata(String::from("nowhere.py"));
    assert!(none.commits.is_empty() && none.issues.is_empty() && none.symbols.is_empty());
    assert_eq!(g.list_file_issues(String::from("a.py")), vec!["#7"]);
    assert_eq!(g.list_file_commits(String::from("a.py")), vec!["c1"]);
    assert!(g.list_file_commits(String::from("b.py")).is_empty());
    assert!(g.list_file_issues(String::from("c1")).is_empty());
}

#[test]
fn pairs_between_files_need_two_files_of_the_graph() {
    let g = three_files();
    let pairs = g.pairs_between_files(String::from("a.py"), String::from("c.py"));
    let names: Vec<(&str, &str)> =
        pairs.iter().map(|p| (p.src_symbol.name.as_str(), p.dst_symbol.file.as_str())).collect();
    assert_eq!(names, vec![("bar", "c.py"), ("foo", "c.py")]);
    assert!(g.pairs_between_files(String::from("c.py"), String::from("a.py")).is_empty());
    assert!(g.pairs_between_files(String::from("a.py"), String::from("zzz.py")).is_empty());
    assert!(g.pairs_between_files(String::from("zzz.py"), String::from("c.py")).is_empty());
}

#[test]
fn the_index_numbers_files_then_relations_and_definitions() {
    let g = three_files();
    let index = g.list_all_relations();
    let files: Vec<(usize, &str)> =
        index.file_nodes.iter().map(|n| (n.id, n.name.as_str())).collect();
    assert_eq!(files, vec![(0, "a.py"), (1, "b.py"), (2, "c.py")]);
    assert!(index.file_nodes.iter().all(|n| n.kind == LineKind::FileNode));
    assert_eq!(index.file_nodes[0].issues, vec!["#7"]);
    assert!(index.file_nodes[1].issues.is_empty());
    let relations: Vec<(usize, usize, usize, Vec<usize>)> = index
        .file_relations
        .iter()
        .map(|r| (r.id, r.src, r.dst, r.symbols.clone()))
        .collect();
    // a.py -> b.py and a.py -> c.py go through references only;
    // b.py -> a.py goes through `foo`, c.py -> a.py through `bar` and `foo`
    assert_eq!(
        relations,
        vec![
            (3, 0, 1, vec![]),
            (4, 0, 2, vec![]),
            (6, 1, 0, vec![5]),
            (8, 2, 0, vec![7, 5]),
        ]
    );
    assert!(index.file_relations.iter().all(|r| r.kind == LineKind::FileRelation));
    let symbols: Vec<(usize, &str, usize)> =
        index.symbol_nodes.iter().map(|n| (n.id, n.name.as_str(), n.range.start_byte)).collect();
    assert_eq!(symbols, vec![(5, "foo", 0), (7, "bar", 20)]);
    assert!(index.symbol_nodes.iter().all(|n| n.kind == LineKind::SymbolNode));
}

#[test]
fn the_index_is_the_same_for_the_same_graph() {
    let first = three_files().list_all_relations();
    let second = three_files().list_all_relations();
    assert_eq!(format!("{:?}", first), format!("{:?}", second));
}

#[test]
fn a_server_starts_on_the_default_port() {
    let config = ServerConfig::new(three_files());
    assert_eq!(config.port, 9411);
    assert_eq!(DEFAULT_PORT, 9411);
    assert_eq!(config.graph.files().len(), 3);
}

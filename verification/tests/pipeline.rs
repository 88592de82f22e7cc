use cupido::relation::graph::RelationGraph;
use gossiphs::builder::{bind, context_of, fall_back, plan_links, seed, Binding, BuildError};
use gossiphs::graph::{
    source_of,
    build_global_symbol_table, extractor_for_extension, extractor_for_file,
    filter_pointless_symbols, FileContext, Graph, GraphConfig, SourceFile,
};
use gossiphs::extractor::Extractor;
use gossiphs::symbol::{Point, RangeWrapper, Symbol, SymbolKind};
use gossiphs::table::SymbolTable;
use gossiphs::weight::{commit_is_small, has_name, score_between, small_commits_of, FileCommits, Ratio};

fn at(start_byte: usize) -> RangeWrapper {
    RangeWrapper {
        start_byte,
        end_byte: start_byte + 1,
        start_point: Point { row: start_byte, column: 0 },
        end_point: Point { row: start_byte, column: 1 },
    }
}

fn symbol(kind: SymbolKind, file: &str, name: &str, start: usize) -> Symbol {
    Symbol { file: String::from(file), name: String::from(name), range: at(start), kind }
}

fn context(path: &str, symbols: Vec<Symbol>) -> FileContext {
    FileContext { path: String::from(path), symbols }
}

fn history(commits: &[(&str, &[&str])]) -> RelationGraph {
    let mut g = RelationGraph::new();
    for (commit, files) in commits {
        g.add_commit_node(&String::from(*commit));
        for file in files.iter() {
            g.add_file_node(&String::from(*file));
            g.add_edge_file2commit(&String::from(*file), &String::from(*commit));
        }
    }
    g
}

fn source(path: &str, content: &str) -> SourceFile {
    SourceFile { path: String::from(path), content: String::from(content) }
}

fn one_to_one() -> Ratio {
    Ratio { numerator: 1, denominator: 1 }
}

#[test]
fn default_config() {
    let conf = GraphConfig::default();
    assert_eq!(conf.project_path, ".");
    assert_eq!(conf.def_limit, 16);
    assert_eq!(conf.commit_size_limit_ratio, one_to_one());
    assert_eq!(conf.depth, 10240);
    assert_eq!(conf.symbol_limit, 4096);
    assert_eq!(conf.symbol_len_limit, 0);
    assert_eq!(conf.exclude_file_regex, "");
    assert!(conf.exclude_author_regex.is_none());
    assert!(conf.exclude_commit_regex.is_none());
    assert!(conf.issue_regex.is_none());
    assert!(conf.commit_id.is_none());
    assert_eq!(conf.file_min_links, 0);
    assert_eq!(conf.file_max_links, 0);
}

#[test]
fn link_bounds_of_zero_do_not_bind() {
    let mut conf = GraphConfig::default();
    assert!(conf.link_count_allowed(0));
    assert!(conf.link_count_allowed(1000));
    conf.file_min_links = 2;
    conf.file_max_links = 4;
    assert!(!conf.link_count_allowed(1));
    assert!(conf.link_count_allowed(2));
    assert!(conf.link_count_allowed(4));
    assert!(!conf.link_count_allowed(5));
}

#[test]
fn extensions_map_to_languages() {
    let cases = [
        ("rs", Some(Extractor::Rust)),
        ("ts", Some(Extractor::TypeScript)),
        ("tsx", Some(Extractor::TypeScript)),
        ("go", Some(Extractor::Go)),
        ("py", Some(Extractor::Python)),
        ("js", Some(Extractor::JavaScript)),
        ("jsx", Some(Extractor::JavaScript)),
        ("java", Some(Extractor::Java)),
        ("kt", Some(Extractor::Kotlin)),
        ("swift", Some(Extractor::Swift)),
        ("cs", Some(Extractor::CSharp)),
        ("c", Some(Extractor::C)),
        ("h", Some(Extractor::C)),
        ("cpp", Some(Extractor::Cpp)),
        ("hpp", Some(Extractor::Cpp)),
        ("cc", Some(Extractor::Cpp)),
        ("txt", None),
        ("", None),
        ("RS", None),
    ];
    for (extension, expected) in cases {
        assert_eq!(extractor_for_extension(extension), expected, "{}", extension);
    }
}

#[test]
fn the_extension_is_what_follows_the_last_dot_in_lowercase() {
    assert_eq!(extractor_for_file(&String::from("src/main.rs")), Some(Extractor::Rust));
    assert_eq!(extractor_for_file(&String::from("a.b/c.PY")), Some(Extractor::Python));
    assert_eq!(extractor_for_file(&String::from("archive.tar.go")), Some(Extractor::Go));
    assert_eq!(extractor_for_file(&String::from("Makefile")), None);
    assert_eq!(extractor_for_file(&String::from("py")), Some(Extractor::Python));
    assert_eq!(extractor_for_file(&String::from("notes.md")), None);
    assert_eq!(extractor_for_file(&String::from("trailing.")), None);
}

#[test]
fn files_with_too_many_symbols_are_left_out() {
    let symbols = vec![symbol(SymbolKind::DEF, "a.py", "f", 0), symbol(SymbolKind::REF, "a.py", "g", 1)];
    assert!(context_of(&String::from("a.py"), symbols.clone(), 2).is_none());
    assert!(context_of(&String::from("a.py"), symbols.clone(), 0).is_none());
    let kept = context_of(&String::from("a.py"), symbols.clone(), 3).unwrap();
    assert_eq!(kept.path, "a.py");
    assert_eq!(kept.symbols, symbols);
}

#[test]
fn unsupported_and_large_files_give_no_context() {
    let text = String::from("def f():\n    pass\nf()\n");
    assert!(Graph::extract_file_context(&String::from("a.txt"), &text, 100).is_none());
    assert!(Graph::extract_file_context(&String::from("a.py"), &text, 2).is_none());
    let context = Graph::extract_file_context(&String::from("a.py"), &text, 3).unwrap();
    assert_eq!(context.path, "a.py");
    assert_eq!(context.symbols.len(), 2);
    let contexts = Graph::extract_file_contexts(
        &vec![source("a.py", "def f(): pass\n"), source("b.txt", "x"), source("c.py", "f()\n")],
        100,
    );
    let paths: Vec<&str> = contexts.iter().map(|c| c.path.as_str()).collect();
    assert_eq!(paths, vec!["a.py", "c.py"]);
}

#[test]
fn global_tables_hold_symbols_by_name_and_kind() {
    let contexts = vec![
        context(
            "a.py",
            vec![
                symbol(SymbolKind::DEF, "a.py", "foo", 0),
                symbol(SymbolKind::DEF, "a.py", "bar", 1),
                symbol(SymbolKind::IMPORT, "a.py", "os", 2),
            ],
        ),
        context(
            "b.py",
            vec![symbol(SymbolKind::REF, "b.py", "foo", 0), symbol(SymbolKind::DEF, "b.py", "foo", 1)],
        ),
    ];
    let (defs, refs, unique) = build_global_symbol_table(&contexts);
    let foo = String::from("foo");
    let bar = String::from("bar");
    let os = String::from("os");
    assert_eq!(defs.get(&foo).unwrap().len(), 2);
    assert_eq!(defs.get(&foo).unwrap()[0].file, "a.py");
    assert_eq!(defs.get(&foo).unwrap()[1].file, "b.py");
    assert_eq!(defs.get(&bar).unwrap().len(), 1);
    assert!(defs.get(&os).is_none());
    assert_eq!(refs.get(&foo).unwrap().len(), 1);
    assert!(!refs.contains_key(&bar));
    assert!(unique.contains_key(&bar));
    assert!(!unique.contains_key(&foo));
    assert_eq!(unique.get(&bar).unwrap()[0].name, "bar");
}

#[test]
fn pointless_symbols_are_filtered() {
    let contexts = vec![
        context(
            "a.py",
            vec![
                symbol(SymbolKind::DEF, "a.py", "used", 0),
                symbol(SymbolKind::DEF, "a.py", "unused", 1),
                symbol(SymbolKind::IMPORT, "a.py", "os", 2),
                symbol(SymbolKind::DEF, "a.py", "x", 3),
            ],
        ),
        context(
            "b.py",
            vec![
                symbol(SymbolKind::REF, "b.py", "used", 0),
                symbol(SymbolKind::REF, "b.py", "undefined", 1),
                symbol(SymbolKind::REF, "b.py", "x", 2),
            ],
        ),
    ];
    let (defs, refs, _) = build_global_symbol_table(&contexts);
    let names = |limit: usize| -> Vec<Vec<String>> {
        filter_pointless_symbols(&contexts, &defs, &refs, limit)
            .into_iter()
            .map(|c| c.symbols.into_iter().map(|s| s.name).collect())
            .collect()
    };
    assert_eq!(names(0), vec![vec!["used", "os", "x"], vec!["used", "x"]]);
    assert_eq!(names(1), vec![vec!["used", "os"], vec!["used"]]);
    assert_eq!(names(2), vec![vec!["used"], vec!["used"]]);
    assert_eq!(names(4), vec![Vec::<String>::new(), Vec::<String>::new()]);
    let kept = filter_pointless_symbols(&contexts, &defs, &refs, 0);
    assert_eq!(kept[0].path, "a.py");
    assert_eq!(kept[1].path, "b.py");
}

#[test]
fn name_lengths_count_bytes() {
    let contexts = vec![context(
        "a.py",
        vec![symbol(SymbolKind::IMPORT, "a.py", "é", 0), symbol(SymbolKind::IMPORT, "a.py", "e", 1)],
    )];
    let (defs, refs, _) = build_global_symbol_table(&contexts);
    let kept = filter_pointless_symbols(&contexts, &defs, &refs, 1);
    assert_eq!(kept[0].symbols.len(), 1);
    assert_eq!(kept[0].symbols[0].name, "é");
}

#[test]
fn a_table_keeps_the_order_of_its_symbols() {
    let mut table = SymbolTable::new();
    assert!(!table.contains_key(&String::from("f")));
    table.add(symbol(SymbolKind::DEF, "a.py", "f", 0));
    table.add(symbol(SymbolKind::DEF, "b.py", "g", 0));
    table.add(symbol(SymbolKind::DEF, "c.py", "f", 0));
    let files: Vec<&str> = table.get(&String::from("f")).unwrap().iter().map(|s| s.file.as_str()).collect();
    assert_eq!(files, vec!["a.py", "c.py"]);
    let unique = table.unique();
    assert!(unique.contains_key(&String::from("g")));
    assert!(!unique.contains_key(&String::from("f")));
}

#[test]
fn small_commits_touch_fewer_files_than_the_ratio_allows() {
    assert!(commit_is_small(2, 10, one_to_one()));
    assert!(commit_is_small(9, 10, one_to_one()));
    assert!(!commit_is_small(10, 10, one_to_one()));
    let third = Ratio { numerator: 3, denominator: 10 };
    assert!(commit_is_small(2, 10, third));
    assert!(!commit_is_small(3, 10, third));
    // a third of seven files is two and a third, so two files are fewer
    let one_third = Ratio { numerator: 1, denominator: 3 };
    assert!(commit_is_small(2, 7, one_third));
    assert!(!commit_is_small(3, 7, one_third));
    assert!(commit_is_small(1000, 1, Ratio { numerator: 1, denominator: 0 }));
    assert!(!commit_is_small(0, 10, Ratio { numerator: 0, denominator: 1 }));
    assert!(commit_is_small(usize::MAX - 1, usize::MAX, Ratio { numerator: u64::MAX, denominator: u64::MAX }));
}

#[test]
fn the_small_commits_of_a_file_come_once_with_their_gain() {
    let h = history(&[
        ("c1", &["a.py", "b.py"]),
        ("c2", &["a.py", "b.py", "c.py"]),
        ("c3", &["a.py", "b.py", "c.py", "d.py"]),
    ]);
    let record = small_commits_of(&h, &String::from("a.py"), 4, one_to_one());
    let mut got: Vec<(String, usize)> =
        record.commits().iter().cloned().zip(record.gains().iter().cloned()).collect();
    got.sort();
    assert_eq!(got, vec![(String::from("c1"), 2), (String::from("c2"), 1)]);
    let half = small_commits_of(&h, &String::from("a.py"), 4, Ratio { numerator: 3, denominator: 4 });
    assert_eq!(half.commits(), &vec![String::from("c1")]);
    assert_eq!(half.gains(), &vec![2]);
    let unknown = small_commits_of(&h, &String::from("zzz.py"), 4, one_to_one());
    assert!(unknown.commits().is_empty());
    assert!(record.has(&String::from("c1")));
    assert!(!record.has(&String::from("c3")));
    assert!(has_name(record.commits(), &String::from("c1")));
    assert!(!has_name(record.commits(), &String::from("c3")));
}

fn commits(list: &[(&str, usize)]) -> FileCommits {
    FileCommits::new(list.iter().map(|c| (String::from(c.0), c.1)).collect())
}

#[test]
fn the_score_is_the_shared_gain_over_files_and_references() {
    let mine = commits(&[("c1", 8), ("c2", 8), ("c3", 8), ("c4", 5)]);
    let theirs = commits(&[("c3", 8), ("c2", 8), ("c1", 8), ("c9", 9)]);
    // 24 / 10 = 2.4
    assert_eq!(score_between(&mine, &theirs, 10, 0), 2);
    assert_eq!(score_between(&mine, &theirs, 10, 1), 2);
    // 24 / (10 * 2) = 1.2
    assert_eq!(score_between(&mine, &theirs, 10, 2), 1);
    // 24 / (10 * 3) = 0.8, but a shared commit is worth at least one
    assert_eq!(score_between(&mine, &theirs, 10, 3), 1);
    assert_eq!(score_between(&mine, &theirs, 10, 1000), 1);
    // nothing shared
    assert_eq!(score_between(&mine, &commits(&[("c7", 8)]), 10, 1), 0);
    assert_eq!(score_between(&commits(&[]), &theirs, 10, 1), 0);
    // shared commits that touched every file add nothing
    assert_eq!(score_between(&commits(&[("c1", 0)]), &commits(&[("c1", 0)]), 10, 1), 0);
    // 8 + 8 + 8 + 5 = 29 over 10 files
    assert_eq!(score_between(&mine, &mine, 10, 1), 2);
    assert_eq!(
        score_between(
            &commits(&[("a", 10), ("b", 10), ("c", 10)]),
            &commits(&[("a", 0), ("b", 0), ("c", 0)]),
            10,
            1
        ),
        3
    );
    // scores stop at the largest number
    let huge = commits(&[("a", usize::MAX), ("b", usize::MAX)]);
    assert_eq!(score_between(&huge, &huge, 1, 1), usize::MAX);
    assert_eq!(score_between(&huge, &huge, 2, 1), usize::MAX);
    assert_eq!(score_between(&huge, &huge, 4, 1), usize::MAX / 2);
}

fn three_files() -> Vec<FileContext> {
    vec![
        context(
            "a.py",
            vec![symbol(SymbolKind::DEF, "a.py", "foo", 0), symbol(SymbolKind::DEF, "a.py", "bar", 1)],
        ),
        context("b.py", vec![symbol(SymbolKind::REF, "b.py", "foo", 0)]),
        context(
            "c.py",
            vec![symbol(SymbolKind::REF, "c.py", "foo", 0), symbol(SymbolKind::REF, "c.py", "bar", 1)],
        ),
    ]
}

#[test]
fn seeding_adds_files_and_symbols_and_links_them() {
    let g = seed(&three_files());
    assert_eq!(g.node_count(), 3 + 5);
    assert_eq!(g.edge_count(), 5);
    let names: Vec<String> = g.list_symbols(&String::from("a.py")).into_iter().map(|s| s.name).collect();
    assert_eq!(names, vec!["bar", "foo"]);
    assert_eq!(g.list_references(&String::from("c.py")).len(), 2);
}

#[test]
fn references_are_linked_to_the_definitions_they_were_edited_with() {
    let contexts = three_files();
    let h = history(&[("c1", &["a.py", "b.py"]), ("c2", &["c.py"])]);
    let (defs, _, _) = build_global_symbol_table(&contexts);
    let mut g = seed(&contexts);
    let plan = plan_links(&h, &g, &defs, &contexts, 3, one_to_one(), 16);
    assert_eq!(plan.len(), 1);
    assert_eq!(plan[0].reference.file, "b.py");
    assert_eq!(plan[0].definition.name, "foo");
    assert_eq!(plan[0].score, 1);
    bind(&mut g, &plan);
    assert_eq!(g.edge_count(), 6);
    assert_eq!(
        g.list_definitions_by_reference(&contexts[1].symbols[0].id()),
        vec![(contexts[0].symbols[0].clone(), 1)]
    );
}

#[test]
fn the_best_scored_definitions_come_first_and_the_limit_cuts() {
    let contexts = vec![
        context("use.py", vec![symbol(SymbolKind::REF, "use.py", "f", 0)]),
        context("one.py", vec![symbol(SymbolKind::DEF, "one.py", "f", 0)]),
        context("two.py", vec![symbol(SymbolKind::DEF, "two.py", "f", 0)]),
        context("three.py", vec![symbol(SymbolKind::DEF, "three.py", "f", 0)]),
        context("never.py", vec![symbol(SymbolKind::DEF, "never.py", "f", 0)]),
    ];
    let h = history(&[
        ("a1", &["use.py", "one.py"]),
        ("b1", &["use.py", "two.py"]),
        ("b2", &["use.py", "two.py"]),
        ("b3", &["use.py", "two.py"]),
        ("c1", &["use.py", "three.py"]),
        ("d1", &["never.py"]),
    ]);
    let (defs, _, _) = build_global_symbol_table(&contexts);
    let g = seed(&contexts);
    let order = |limit: usize| -> Vec<(String, usize)> {
        plan_links(&h, &g, &defs, &contexts, 2, one_to_one(), limit)
            .into_iter()
            .map(|b: Binding| (b.definition.file, b.score))
            .collect()
    };
    // with two files in all, a commit of two files is not small
    assert!(order(16).is_empty());
    let order = |limit: usize| -> Vec<(String, usize)> {
        plan_links(&h, &g, &defs, &contexts, 4, one_to_one(), limit)
            .into_iter()
            .map(|b: Binding| (b.definition.file, b.score))
            .collect()
    };
    // each shared commit gains 4 - 2 = 2: one.py 2/4, two.py 6/4, three.py 2/4
    let all = vec![
        (String::from("one.py"), 1),
        (String::from("two.py"), 1),
        (String::from("three.py"), 1),
    ];
    assert_eq!(order(16), all);
    assert_eq!(order(2), all[..2].to_vec());
    assert_eq!(order(1), all[..1].to_vec());
    assert_eq!(order(0), all[..1].to_vec());
    let scored = |total: usize| -> Vec<(String, usize)> {
        plan_links(&h, &g, &defs, &contexts, total, Ratio { numerator: 1, denominator: 0 }, 16)
            .into_iter()
            .map(|b: Binding| (b.definition.file, b.score))
            .collect()
    };
    // with three files each shared commit gains 1: two.py has 3/3
    assert_eq!(scored(3), all);
    // with 100 files each shared commit gains 98: two.py has 294/100
    assert_eq!(
        scored(100),
        vec![(String::from("two.py"), 2), (String::from("one.py"), 1), (String::from("three.py"), 1)]
    );
}

#[test]
fn unlinked_definitions_fall_back_on_a_unique_name() {
    let contexts = three_files();
    let (_, refs, unique) = build_global_symbol_table(&contexts);
    let mut g = seed(&contexts);
    fall_back(&mut g, &contexts, &unique, &refs);
    let foo = &contexts[0].symbols[0];
    let bar = &contexts[0].symbols[1];
    let files = |s: &Symbol| -> Vec<String> {
        g.list_references_by_definition(&s.id()).into_iter().map(|p| p.0.file).collect()
    };
    assert_eq!(files(foo), vec!["c.py", "b.py"]);
    assert_eq!(files(bar), vec!["c.py"]);
    assert!(g.list_references_by_definition(&foo.id()).iter().all(|p| p.1 == 0));
}

#[test]
fn names_with_two_definitions_do_not_fall_back() {
    let mut contexts = three_files();
    contexts.push(context("d.py", vec![symbol(SymbolKind::DEF, "d.py", "foo", 0)]));
    let (_, refs, unique) = build_global_symbol_table(&contexts);
    let mut g = seed(&contexts);
    fall_back(&mut g, &contexts, &unique, &refs);
    assert!(g.list_references_by_definition(&contexts[0].symbols[0].id()).is_empty());
    assert!(g.list_references_by_definition(&contexts[3].symbols[0].id()).is_empty());
    assert_eq!(g.list_references_by_definition(&contexts[0].symbols[1].id()).len(), 1);
}

#[test]
fn a_build_goes_from_sources_to_related_files() {
    let h = history(&[
        ("c1", &["a.py", "b.py"]),
        ("c2", &["a.py", "c.py"]),
        ("c3", &["a.py", "c.py"]),
        ("c4", &["big.bin", "a.py", "b.py", "c.py"]),
    ]);
    let sources = vec![
        source("a.py", "def foo():\n    pass\ndef bar():\n    pass\n"),
        source("b.py", "foo()\n"),
        source("c.py", "foo()\nbar()\n"),
    ];
    let g = Graph::from(h, &sources, &GraphConfig::default()).unwrap();
    assert_eq!(g.files(), vec!["a.py", "b.py", "c.py"]);
    let related: Vec<(String, usize)> =
        g.related_files(String::from("a.py")).into_iter().map(|r| (r.name, r.score)).collect();
    assert_eq!(related, vec![(String::from("c.py"), 2), (String::from("b.py"), 1)]);
    let back: Vec<(String, usize)> =
        g.related_files(String::from("b.py")).into_iter().map(|r| (r.name, r.score)).collect();
    assert_eq!(back, vec![(String::from("a.py"), 1)]);
    assert_eq!(g.list_file_commits(String::from("b.py")).len(), 2);
    let pairs = g.pairs_between_files(String::from("a.py"), String::from("c.py"));
    let names: Vec<&str> = pairs.iter().map(|p| p.src_symbol.name.as_str()).collect();
    assert_eq!(names, vec!["bar", "foo"]);
}

#[test]
fn a_file_that_cannot_be_read_is_no_file_of_the_graph() {
    let h = history(&[("c1", &["a.py", "b.py", "broken.py"])]);
    // the text of broken.py is no UTF-8, so no source is handed over for it
    let sources = vec![source("a.py", "def foo():\n    pass\n"), source("b.py", "foo()\n")];
    let g = Graph::from(h, &sources, &GraphConfig::default()).unwrap();
    assert_eq!(g.files(), vec!["a.py", "b.py"]);
    assert!(g.related_files(String::from("broken.py")).is_empty());
    let related = g.related_files(String::from("a.py"));
    assert_eq!(related.len(), 1);
    assert_eq!(related[0].name, "b.py");
}

#[test]
fn excluded_files_do_not_count() {
    let h = history(&[("c1", &["a.py", "b.py"]), ("c2", &["gen/x.py", "gen/y.py", "z.txt"])]);
    let files = |pattern: &str| Graph::candidate_files(&h, &String::from(pattern));
    assert_eq!(files("").unwrap(), vec!["a.py", "b.py", "gen/x.py", "gen/y.py", "z.txt"]);
    assert_eq!(files("^gen/").unwrap(), vec!["a.py", "b.py", "z.txt"]);
    assert_eq!(files("\\.py$").unwrap(), vec!["z.txt"]);
    assert_eq!(files("."), Ok(Vec::new()));
    assert_eq!(files("("), Err(BuildError::InvalidRegex));
}

#[test]
fn a_build_fails_on_a_pattern_that_is_no_regular_expression() {
    let mut conf = GraphConfig::default();
    conf.exclude_file_regex = String::from("[");
    let result = Graph::from(history(&[("c1", &["a.py"])]), &Vec::new(), &conf);
    assert_eq!(result.err(), Some(BuildError::InvalidRegex));
}

#[test]
fn the_empty_graph_has_nothing() {
    let g = Graph::empty();
    assert!(g.files().is_empty());
    assert!(g.related_files(String::from("a.py")).is_empty());
    assert!(g.list_file_commits(String::from("a.py")).is_empty());
    assert!(g.list_file_issues(String::from("a.py")).is_empty());
    assert!(g.list_all_relations().file_nodes.is_empty());
    assert_eq!(g.symbol_graph().node_count(), 0);
}

#[test]
fn a_larger_repository_is_built_and_indexed() {
    let files = 150usize;
    let mut sources = Vec::new();
    let mut commits: Vec<(String, Vec<String>)> = Vec::new();
    for i in 0..files {
        let mut text = String::new();
        for k in 0..10 {
            text.push_str(&format!("def f_{}_{}():\n    pass\n", i, k));
        }
        for k in 0..10 {
            text.push_str(&format!("f_{}_{}()\n", (i + 1) % files, k));
            text.push_str(&format!("f_{}_{}()\n", (i + 7) % files, k));
        }
        sources.push(source(&format!("pkg/m{:03}.py", i), &text));
        commits.push((
            format!("c{}", i),
            vec![format!("pkg/m{:03}.py", i), format!("pkg/m{:03}.py", (i + 1) % files)],
        ));
    }
    let mut h = RelationGraph::new();
    for (commit, touched) in &commits {
        h.add_commit_node(commit);
        for file in touched {
            h.add_file_node(file);
            h.add_edge_file2commit(file, commit);
        }
    }
    let g = Graph::from(h, &sources, &GraphConfig::default()).unwrap();
    assert_eq!(g.files().len(), files);
    assert_eq!(g.symbol_graph().node_count(), files + files * 30);
    let related = g.related_files(String::from("pkg/m001.py"));
    let names: Vec<&str> = related.iter().map(|r| r.name.as_str()).collect();
    // only the files that were edited together with it are related
    assert_eq!(names.len(), 2);
    assert!(names.contains(&"pkg/m000.py"));
    assert!(names.contains(&"pkg/m002.py"));
    let index = g.list_all_relations();
    assert_eq!(index.file_nodes.len(), files);
    assert_eq!(index.file_relations.len(), files * 2);
    assert_eq!(index.symbol_nodes.len(), files * 10);
    let mut ids: Vec<usize> = index.file_nodes.iter().map(|n| n.id).collect();
    ids.extend(index.file_relations.iter().map(|r| r.id));
    ids.extend(index.symbol_nodes.iter().map(|n| n.id));
    ids.sort();
    let dense: Vec<usize> = (0..ids.len()).collect();
    assert_eq!(ids, dense);
}

#[test]
fn a_build_passes_over_sources_that_do_not_count() {
    let h = history(&[("c1", &["a.py", "b.py", "gen/c.py"])]);
    let sources = vec![
        source("a.py", "def foo():\n    pass\n"),
        source("gen/c.py", "foo()\n"),
        source("unknown.py", "foo()\n"),
        source("b.py", "foo()\n"),
    ];
    let mut conf = GraphConfig::default();
    conf.exclude_file_regex = String::from("^gen/");
    let g = Graph::from(h, &sources, &conf).unwrap();
    assert_eq!(g.files(), vec!["a.py", "b.py"]);
    // one commit that touched three files, two of which count: it is not small
    assert!(g.related_files(String::from("a.py")).iter().all(|r| r.name == "b.py"));
    let contexts = Graph::extract_file_contexts(&sources, 100);
    assert_eq!(contexts.len(), 4);
}

#[test]
fn a_file_that_is_no_text_is_no_source_file() {
    let path = String::from("a.py");
    let text = source_of(&path, "def é(): pass\n".as_bytes().to_vec(), false).unwrap();
    assert_eq!(text.path, "a.py");
    assert_eq!(text.content, "def é(): pass\n");
    assert!(source_of(&path, "def f(): pass\n".as_bytes().to_vec(), true).is_none());
    assert!(source_of(&path, vec![0x64, 0x65, 0x66, 0xff, 0xfe], false).is_none());
    assert!(source_of(&path, vec![0xc3], false).is_none());
    assert_eq!(source_of(&path, Vec::new(), false).unwrap().content, "");
}

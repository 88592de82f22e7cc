use cupido::relation::graph::RelationGraph;
use gossiphs::api::RelatedFileContext;
use gossiphs::graph::Graph;
use gossiphs::report::{
    diff_related, keep_scored, listed_files, note_of, relation_row, split_list, symbol_cell,
};
use gossiphs::symbol::{DefRefPair, Point, RangeWrapper, Symbol, SymbolGraph, SymbolKind};

fn related(name: &str, score: usize) -> RelatedFileContext {
    RelatedFileContext {
        name: String::from(name),
        score,
        defs: 0,
        refs: 0,
        related_symbols: Vec::new(),
    }
}

fn names(list: &[RelatedFileContext]) -> Vec<(&str, usize)> {
    list.iter().map(|r| (r.name.as_str(), r.score)).collect()
}

fn symbol(kind: SymbolKind, file: &str, name: &str, start: usize) -> Symbol {
    Symbol {
        file: String::from(file),
        name: String::from(name),
        range: RangeWrapper {
            start_byte: start,
            end_byte: start + 1,
            start_point: Point { row: 0, column: start },
            end_point: Point { row: 0, column: start + 1 },
        },
        kind,
    }
}

#[test]
fn lists_split_at_every_separator() {
    assert_eq!(
        split_list("src/extractor.rs;src/main.rs;src/graph.rs", ';'),
        vec!["src/extractor.rs", "src/main.rs", "src/graph.rs"]
    );
    assert_eq!(split_list("src/extractor.rs", ';'), vec!["src/extractor.rs"]);
    assert_eq!(split_list("", ';'), vec![""]);
    assert_eq!(split_list(";a;;b;", ';'), vec!["", "a", "", "b", ""]);
    let text = "x;é;;y";
    let expected: Vec<String> = text.split(';').map(String::from).collect();
    assert_eq!(split_list(text, ';'), expected);
}

#[test]
fn listed_files_are_the_lines_that_are_not_blank() {
    let text = "a.rs\n\n  \nsrc/b.rs \r\n\t\r\nc.rs\r";
    let expected: Vec<String> =
        text.lines().filter(|each| !each.trim().is_empty()).map(String::from).collect();
    assert_eq!(listed_files(text), expected);
    assert_eq!(listed_files(text), vec!["a.rs", "src/b.rs ", "c.rs\r"]);
    assert!(listed_files("").is_empty());
    assert!(listed_files("\n\n").is_empty());
    assert_eq!(listed_files("one"), vec!["one"]);
    assert_eq!(listed_files("one\n"), vec!["one"]);
}

#[test]
fn relations_without_a_score_can_be_left_out() {
    let kept = keep_scored(vec![related("a", 2), related("b", 0), related("c", 1), related("d", 0)]);
    assert_eq!(names(&kept), vec![("a", 2), ("c", 1)]);
    assert!(keep_scored(Vec::new()).is_empty());
}

#[test]
fn a_row_of_the_matrix_has_a_cell_for_each_file() {
    let files: Vec<String> = ["a", "b", "c", "d"].iter().map(|s| String::from(*s)).collect();
    let row = relation_row(&files, &vec![related("c", 4), related("b", 0), related("x", 9), related("c", 7)]);
    assert_eq!(row, vec![None, None, Some(4), None]);
    assert_eq!(relation_row(&files, &Vec::new()), vec![None, None, None, None]);
    assert!(relation_row(&Vec::new(), &vec![related("c", 4)]).is_empty());
}

#[test]
fn a_cell_of_the_symbol_matrix_joins_names_with_bars() {
    let pair = |name: &str| DefRefPair {
        src_symbol: symbol(SymbolKind::DEF, "a", name, 0),
        dst_symbol: symbol(SymbolKind::REF, "b", "other", 0),
    };
    assert_eq!(symbol_cell(&Vec::new()), "");
    assert_eq!(symbol_cell(&vec![pair("foo")]), "foo");
    assert_eq!(symbol_cell(&vec![pair("foo"), pair("A.bar"), pair("baz")]), "foo|A.bar|baz");
}

#[test]
fn a_note_links_to_each_related_file() {
    assert_eq!(note_of(&Vec::new()), "");
    assert_eq!(
        note_of(&vec![related("src/a.rs", 2), related("b.rs", 1)]),
        "[[src/a.rs]]\n[[b.rs]]\n"
    );
}

#[test]
fn relations_differ_between_revisions() {
    let target = vec![related("gone", 1), related("both", 2), related("also", 3)];
    let source = vec![related("both", 5), related("new", 1), related("also", 3), related("newer", 2)];
    let diff = diff_related(&target, &source);
    assert_eq!(names(&diff.added), vec![("new", 1), ("newer", 2)]);
    assert_eq!(names(&diff.deleted), vec![("gone", 1)]);
    assert_eq!(names(&diff.modified), vec![("both", 5), ("also", 3)]);
    let nothing = diff_related(&Vec::new(), &Vec::new());
    assert!(nothing.added.is_empty() && nothing.deleted.is_empty() && nothing.modified.is_empty());
}

fn small_graph() -> Graph {
    let foo = symbol(SymbolKind::DEF, "a.py", "foo", 4);
    let use_foo = symbol(SymbolKind::REF, "b.py", "foo", 9);
    let import = symbol(SymbolKind::IMPORT, "b.py", "a", 2);
    let mut g = SymbolGraph::new();
    for file in ["a.py", "b.py"] {
        g.add_file(&String::from(file));
    }
    for s in [&foo, &use_foo, &import] {
        g.add_symbol(s.clone());
        g.link_file_to_symbol(&s.file, s);
    }
    g.link_symbol_to_symbol(&use_foo, &foo);
    g.enhance_symbol_to_symbol(&use_foo.id(), &foo.id(), 3);
    Graph::assemble(Vec::new(), RelationGraph::new(), g)
}

#[test]
fn symbols_are_found_by_file_and_start_byte() {
    let g = small_graph();
    assert_eq!(
        g.symbol_relations(String::from("a.py"), 4),
        vec![(String::from("b.py:foo:REF:9:3"), 3)]
    );
    assert_eq!(
        g.symbol_relations(String::from("b.py"), 9),
        vec![(String::from("a.py:foo:DEF:4:3"), 3)]
    );
    assert!(g.symbol_relations(String::from("b.py"), 2).is_empty());
    assert!(g.symbol_relations(String::from("a.py"), 5).is_empty());
    assert!(g.symbol_relations(String::from("zzz.py"), 4).is_empty());
}

#[test]
fn symbols_are_found_by_identifier() {
    let g = small_graph();
    let found = g.symbol_by_id(&String::from("a.py:foo:DEF:4:3")).unwrap();
    assert_eq!(found.name, "foo");
    assert_eq!(found.kind, SymbolKind::DEF);
    assert_eq!(found, g.symbol_graph().symbol(&String::from("a.py:foo:DEF:4:3")).unwrap());
    assert!(g.symbol_by_id(&String::from("a.py:foo:DEF:5:3")).is_none());
    assert!(g.symbol_by_id(&String::from("a.py")).is_none());
}

#[test]
fn blank_lines_hold_white_space_only() {
    assert!(listed_files("\u{a0}\u{3000}\t \u{85}\u{2028}\u{1680}\u{2000}\u{200a}\u{202f}\u{205f}").is_empty());
    assert!(listed_files("\u{b}\u{c}\r").is_empty());
    assert_eq!(listed_files("\u{200b}"), vec!["\u{200b}"]);
    assert_eq!(listed_files("\u{180e}"), vec!["\u{180e}"]);
    assert_eq!(listed_files(" \u{feff} "), vec![" \u{feff} "]);
    assert_eq!(listed_files("\u{8}"), vec!["\u{8}"]);
    assert_eq!(listed_files("\u{e}\n \n\u{1f}"), vec!["\u{e}", "\u{1f}"]);
}

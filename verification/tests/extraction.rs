use gossiphs::extractor::{
    emit, is_rejected, symbols_of_captures, Capture, Captures, ExtractError, Extractor,
};
use gossiphs::graph::{prune_nested, NamespaceManager};
use gossiphs::rule::{get_rule, Rule};
use gossiphs::scope::{
    clean_scope_name, has_word, kind_is_scope, qualified_name, scope_contribution, ScopeFacts,
};
use gossiphs::symbol::{Point, RangeWrapper, Symbol, SymbolKind};
use gossiphs::text::{
    chars_of, matches_pattern, pattern_compiles, same_text, slice_text, string_of, strip_quotes,
};

fn named(extractor: Extractor, file: &str, source: &str) -> Vec<(SymbolKind, String)> {
    extractor
        .extract(&String::from(file), &String::from(source))
        .into_iter()
        .map(|s| (s.kind, s.name))
        .collect()
}

fn pair(kind: SymbolKind, name: &str) -> (SymbolKind, String) {
    (kind, String::from(name))
}

fn rows(start: usize, end: usize) -> RangeWrapper {
    RangeWrapper {
        start_byte: start * 10,
        end_byte: end * 10 + 5,
        start_point: Point { row: start, column: 0 },
        end_point: Point { row: end, column: 5 },
    }
}

fn scope(kind: &str, qualifier: Option<&str>, name: Option<&str>, names_capture: bool) -> ScopeFacts {
    ScopeFacts {
        kind: String::from(kind),
        qualifier: qualifier.map(String::from),
        name: name.map(String::from),
        names_capture,
        identifier: None,
    }
}

fn plain_rule(level: usize) -> Rule {
    Rule {
        import_grammar: "",
        export_grammar: "",
        dep_grammar: "",
        namespace_grammar: "",
        namespace_filter_level: level,
        blacklist: vec!["self"],
        exclude_regex: Some("^_+$"),
    }
}

#[test]
fn go_main_with_blank_identifier() {
    let symbols = named(
        Extractor::Go,
        "main.go",
        "package main\nfunc main(){ _ = \"x\"; val := 1 }",
    );
    assert_eq!(symbols, vec![pair(SymbolKind::DEF, "main"), pair(SymbolKind::REF, "main.val")]);
    assert!(symbols.iter().all(|s| s.1 != "_"));
}

#[test]
fn go_receivers_name_the_scope_of_a_method() {
    let symbols = named(
        Extractor::Go,
        "n.go",
        "package main\nimport \"fmt\"\ntype T struct{}\nfunc (t *T) Foo() { fmt.Println(bar()) }\nfunc (T) Baz() {}\n",
    );
    assert!(symbols.contains(&pair(SymbolKind::DEF, "T")));
    assert!(symbols.contains(&pair(SymbolKind::DEF, "T.Foo")));
    assert!(symbols.contains(&pair(SymbolKind::DEF, "T.Baz")));
    assert!(symbols.contains(&pair(SymbolKind::REF, "T.bar")));
    assert!(symbols.contains(&pair(SymbolKind::IMPORT, "fmt")));
}

#[test]
fn python_nested_classes_get_dotted_names() {
    let symbols = named(
        Extractor::Python,
        "o.py",
        "class Outer:\n  class Inner:\n    def method(self): helper()\n  def helper(self): pass\n",
    );
    assert_eq!(
        symbols,
        vec![
            pair(SymbolKind::DEF, "Outer"),
            pair(SymbolKind::DEF, "Outer.Inner"),
            pair(SymbolKind::DEF, "Outer.Inner.method"),
            pair(SymbolKind::DEF, "Outer.helper"),
            pair(SymbolKind::REF, "Outer.Inner.method.helper"),
        ]
    );
}

#[test]
fn python_definitions_nested_twice_are_dropped() {
    let symbols = named(
        Extractor::Python,
        "deep.py",
        "class Outer:\n    class Inner:\n        x = 1\n        def method(self):\n            pass\n        y = 2\n    z = 3\n",
    );
    assert!(symbols.contains(&pair(SymbolKind::DEF, "Outer")));
    assert!(symbols.contains(&pair(SymbolKind::DEF, "Outer.Inner")));
    assert!(!symbols.contains(&pair(SymbolKind::DEF, "Outer.Inner.method")));
    assert!(symbols.iter().all(|s| s.0 != SymbolKind::NAMESPACE));
}

#[test]
fn c_includes_and_calls() {
    let symbols = named(
        Extractor::C,
        "c.c",
        "#include \"h.h\"\n#include <stdio.h>\nvoid f(){ printf(\"hi\"); }",
    );
    assert_eq!(
        symbols,
        vec![
            pair(SymbolKind::DEF, "f"),
            pair(SymbolKind::REF, "f.printf"),
            pair(SymbolKind::IMPORT, "h.h"),
            pair(SymbolKind::IMPORT, "stdio.h"),
        ]
    );
}

#[test]
fn java_same_method_name_in_two_classes() {
    let auth = named(
        Extractor::Java,
        "Auth.java",
        "class AuthService {\n  boolean validate(String t) { return true; }\n  void login(String t) { validate(t); }\n}\n",
    );
    let data = named(
        Extractor::Java,
        "Data.java",
        "class DataService {\n  boolean validate(String t) { return false; }\n}\n",
    );
    assert!(auth.contains(&pair(SymbolKind::DEF, "AuthService.validate")));
    assert!(auth.contains(&pair(SymbolKind::REF, "AuthService.login.validate")));
    assert!(data.contains(&pair(SymbolKind::DEF, "DataService.validate")));
    assert!(!auth.iter().any(|s| s.1 == "DataService.validate"));
    assert!(!data.iter().any(|s| s.1 == "AuthService.validate"));
}

#[test]
fn every_language_gives_symbols_of_its_file() {
    let cases = [
        (Extractor::Rust, "r.rs", "use crate::a::B;\nfn other(x: u8) { go(x); }\n"),
        (Extractor::TypeScript, "t.ts", "import { store } from 'docx-deps';\nexport function abc() { store.dispatch(1); }\n"),
        (Extractor::Go, "g.go", "package main\nimport \"fmt\"\nfunc main() { fmt.Println(run()) }\n"),
        (Extractor::Python, "p.py", "import os\ndef f(x):\n    return g(x)\n"),
        (Extractor::JavaScript, "j.js", "import React from 'react';\nexport function namedFunction() { console.log('x'); }\n"),
        (Extractor::Java, "J.java", "import a.b.C;\nclass Example { void hello() { run(); } }\n"),
        (Extractor::Kotlin, "k.kt", "package a.b\nimport android.util.Log\nfun top() { Log.i(\"a\") }\n"),
        (Extractor::Swift, "s.swift", "import UIKit\nfunc run(_ x: Int) -> Bool { return helper(x) }\n"),
        (Extractor::CSharp, "c.cs", "using System.Text;\nclass A { void Run() { Helper(); } }\n"),
        (Extractor::C, "c.c", "#include <stdio.h>\nint f(int x) { return g(x); }\n"),
        (Extractor::Cpp, "c.cpp", "#include <vector>\nint helper(int x) { return other(x); }\n"),
    ];
    for (extractor, file, source) in cases {
        let result = extractor.try_extract(&String::from(file), &String::from(source));
        let symbols = result.expect(file);
        assert!(symbols.iter().any(|s| s.kind == SymbolKind::DEF), "{}", file);
        assert!(symbols.iter().any(|s| s.kind == SymbolKind::REF), "{}", file);
        assert!(symbols.iter().any(|s| s.kind == SymbolKind::IMPORT), "{}", file);
        assert!(symbols.iter().all(|s| s.file == file), "{}", file);
        assert!(symbols.iter().all(|s| s.kind != SymbolKind::NAMESPACE), "{}", file);
    }
}

#[test]
fn positions_are_those_of_the_captured_node() {
    let symbols = Extractor::Python.extract(&String::from("p.py"), &String::from("\n\ndef  f(): pass\n"));
    let f = symbols.iter().find(|s| s.kind == SymbolKind::DEF).unwrap();
    assert_eq!(f.name, "f");
    assert_eq!(f.range.start_byte, 7);
    assert_eq!(f.range.end_byte, 8);
    assert_eq!(f.range.start_point, Point { row: 2, column: 5 });
    assert_eq!(f.range.end_point, Point { row: 2, column: 6 });
}

#[test]
fn a_definition_is_no_reference_to_itself() {
    let symbols = Extractor::Python.extract(&String::from("p.py"), &String::from("def f(): pass\nf()\n"));
    let refs: Vec<&Symbol> = symbols.iter().filter(|s| s.kind == SymbolKind::REF).collect();
    assert_eq!(refs.len(), 1);
    assert_eq!(refs[0].range.start_point.row, 1);
}

#[test]
fn a_query_that_is_none_of_the_grammar_is_an_error() {
    let mut rule = get_rule(&Extractor::Python);
    rule.export_grammar = "(no_such_node) @x";
    let source = String::from("def f(): pass\n");
    let result = Extractor::Python.try_extract_with(&rule, &String::from("a.py"), &source);
    assert_eq!(result.err(), Some(ExtractError::Query));
    let mut rule = get_rule(&Extractor::Python);
    rule.import_grammar = "(identifier";
    assert_eq!(
        Extractor::Python.capture_with(&rule, &source).err(),
        Some(ExtractError::Query)
    );
    assert_ne!(ExtractError::Language, ExtractError::Parse);
    assert_ne!(ExtractError::Parse, ExtractError::Query);
}

#[test]
fn a_rule_of_ones_own_finds_what_its_queries_capture() {
    let rule = Rule {
        import_grammar: "(call function: (identifier) @called)",
        export_grammar: "(class_definition name: (identifier) @class)",
        dep_grammar: "",
        namespace_grammar: "",
        namespace_filter_level: 0,
        blacklist: vec!["print"],
        exclude_regex: Some("^_"),
    };
    let source = String::from("class A:\n    def f(self):\n        print(g(_h(1)))\n");
    let symbols = Extractor::Python.try_extract_with(&rule, &String::from("a.py"), &source).unwrap();
    let got: Vec<(SymbolKind, String)> = symbols.into_iter().map(|s| (s.kind, s.name)).collect();
    assert_eq!(got, vec![pair(SymbolKind::DEF, "A"), pair(SymbolKind::REF, "A.f.g")]);
}

#[test]
fn text_that_is_no_program_still_gives_a_tree() {
    let symbols = Extractor::Python.try_extract(&String::from("a.py"), &String::from("def (((\n"));
    assert!(symbols.is_ok());
    assert!(Extractor::Go.extract(&String::from("a.go"), &String::new()).is_empty());
}

#[test]
fn rules_have_the_levels_of_their_language() {
    assert_eq!(get_rule(&Extractor::Rust).namespace_filter_level, 1);
    assert_eq!(get_rule(&Extractor::Python).namespace_filter_level, 2);
    assert_eq!(get_rule(&Extractor::Kotlin).namespace_filter_level, 0);
    assert_eq!(get_rule(&Extractor::Kotlin).namespace_grammar, "");
    assert_eq!(get_rule(&Extractor::Go).blacklist, vec!["_"]);
    assert!(get_rule(&Extractor::Java).export_grammar.contains("method_declaration"));
    assert!(get_rule(&Extractor::C).dep_grammar.contains("preproc_include"));
    assert!(get_rule(&Extractor::Swift).exclude_regex.is_none());
    assert_eq!(Extractor::Go.get_rule().import_grammar, get_rule(&Extractor::Go).import_grammar);
}

#[test]
fn scope_kinds_contain_a_scope_word() {
    assert!(kind_is_scope("class_declaration"));
    assert!(kind_is_scope("function_item"));
    assert!(kind_is_scope("method_invocation"));
    assert!(kind_is_scope("impl_item"));
    assert!(kind_is_scope("module"));
    assert!(!kind_is_scope("block"));
    assert!(!kind_is_scope("call_expression"));
    assert!(!kind_is_scope(""));
    assert!(has_word(&chars_of("abcabd"), &chars_of("abd")));
    assert!(!has_word(&chars_of("abcab"), &chars_of("abd")));
    assert!(has_word(&chars_of("abc"), &chars_of("")));
}

#[test]
fn scope_names_are_cleaned() {
    let clean = |text: &str, receivers: bool| clean_scope_name(text, receivers).map(|c| string_of(&c));
    assert_eq!(clean("f()", false), Some(String::from("f")));
    assert_eq!(clean("f(int a, char *b)", false), Some(String::from("f")));
    assert_eq!(clean("Outer", false), Some(String::from("Outer")));
    assert_eq!(clean("*f()", false), Some(String::from("*f")));
    assert_eq!(clean("(r **T)", true), Some(String::from("T")));
    assert_eq!(clean("(r *T) extra", true), Some(String::from("T")));
    assert_eq!(clean("(r T", true), Some(String::from("T")));
    assert_eq!(clean("()", true), None);
    assert_eq!(clean("(r *T)", true), Some(String::from("T")));
    assert_eq!(clean("(*T)", true), Some(String::from("T")));
    assert_eq!(clean("(T)", true), Some(String::from("T")));
    assert_eq!(clean("(T)", false), None);
    assert_eq!(clean("self", false), None);
    assert_eq!(clean("this", true), None);
    assert_eq!(clean("", false), None);
    assert_eq!(clean("selfish", false), Some(String::from("selfish")));
}

#[test]
fn a_scope_contributes_by_the_first_rule_that_applies() {
    let name_of = |s: &ScopeFacts| scope_contribution(s, false).map(|c| string_of(&c));
    // a qualifying field wins, whatever the kind
    assert_eq!(name_of(&scope("field_expression", Some("obj"), Some("n"), false)), Some(String::from("obj")));
    // a scope kind gives its primary name
    assert_eq!(name_of(&scope("class_definition", None, Some("Outer"), false)), Some(String::from("Outer")));
    // unless the capture is that name
    assert_eq!(name_of(&scope("class_definition", None, Some("Outer"), true)), None);
    // other kinds give nothing
    assert_eq!(name_of(&scope("block", None, Some("x"), false)), None);
    // without a primary name the first other identifier child counts
    let mut fallback = scope("class_body", None, None, false);
    assert_eq!(name_of(&fallback), None);
    fallback.identifier = Some(String::from("ident"));
    assert_eq!(name_of(&fallback), Some(String::from("ident")));
    // pseudo-identifiers give nothing
    assert_eq!(name_of(&scope("attribute", Some("self"), None, false)), None);
}

#[test]
fn qualified_names_run_from_the_outermost_scope_inwards() {
    let scopes = vec![
        scope("function_definition", None, Some("method"), false),
        scope("block", None, None, false),
        scope("class_definition", None, Some("Inner"), false),
        scope("class_definition", None, Some("Outer"), false),
        scope("module", None, None, false),
    ];
    assert_eq!(qualified_name(&scopes, "helper", false), "Outer.Inner.method.helper");
    assert_eq!(qualified_name(&Vec::new(), "helper", false), "helper");
}

#[test]
fn qualified_names_do_not_repeat_a_segment() {
    let scopes = vec![
        scope("function_declarator", None, Some("f"), true),
        scope("function_definition", None, Some("f()"), false),
    ];
    assert_eq!(qualified_name(&scopes, "f", false), "f");
    let twice = vec![
        scope("class_definition", None, Some("A"), false),
        scope("class_definition", None, Some("A"), false),
        scope("class_definition", None, Some("B"), false),
        scope("class_definition", None, Some("A"), false),
    ];
    assert_eq!(qualified_name(&twice, "x", false), "A.B.A.x");
}

#[test]
fn same_name_in_other_scopes_gives_other_names() {
    let auth = vec![scope("class_declaration", None, Some("AuthService"), false)];
    let data = vec![scope("class_declaration", None, Some("DataService"), false)];
    assert_ne!(qualified_name(&auth, "validate", false), qualified_name(&data, "validate", false));
}

#[test]
fn quotes_and_angle_brackets_are_stripped() {
    assert_eq!(strip_quotes("\"h.h\""), "h.h");
    assert_eq!(strip_quotes("<stdio.h>"), "stdio.h");
    assert_eq!(strip_quotes("'react'"), "react");
    assert_eq!(strip_quotes("plain"), "plain");
    assert_eq!(strip_quotes("\"\""), "");
    assert_eq!(strip_quotes("a\"b"), "a\"b");
}

#[test]
fn texts_and_patterns() {
    assert!(same_text("abc", "abc"));
    assert!(!same_text("abc", "abd"));
    assert!(!same_text("abc", "ab"));
    assert_eq!(string_of(&chars_of("héllo")), "héllo");
    assert!(pattern_compiles("^a+$"));
    assert!(!pattern_compiles("("));
    assert!(matches_pattern("^a+$", "aaa"));
    assert!(!matches_pattern("^a+$", "aab"));
    assert!(matches_pattern("b", "aab"));
    assert!(!matches_pattern("(", "("));
}

#[test]
fn rejected_names_are_blacklisted_or_match_the_pattern() {
    let rule = plain_rule(0);
    assert!(is_rejected(&rule, &String::from("self")));
    assert!(is_rejected(&rule, &String::from("__")));
    assert!(!is_rejected(&rule, &String::from("selfish")));
    assert!(!is_rejected(&rule, &String::from("_a")));
    assert!(is_rejected(&get_rule(&Extractor::Go), &String::from("_")));
    assert!(!is_rejected(&get_rule(&Extractor::Go), &String::from("x")));
}

fn capture(text: &str, start: usize, end: usize) -> Capture {
    Capture { text: String::from(text), range: rows(start, end), scopes: Vec::new() }
}

#[test]
fn captures_become_symbols_in_the_order_defs_refs_imports() {
    let captures = Captures {
        defs: vec![capture("f", 0, 0), capture("self", 1, 1)],
        refs: vec![capture("f", 0, 0), capture("g", 2, 2), capture("___", 3, 3)],
        deps: vec![capture("\"h.h\"", 4, 4)],
        namespaces: vec![rows(0, 9)],
    };
    let symbols = symbols_of_captures(&String::from("x.c"), &plain_rule(1), false, &captures);
    let got: Vec<(SymbolKind, String)> = symbols.into_iter().map(|s| (s.kind, s.name)).collect();
    assert_eq!(
        got,
        vec![pair(SymbolKind::DEF, "f"), pair(SymbolKind::REF, "g"), pair(SymbolKind::IMPORT, "h.h")]
    );
}

#[test]
fn references_that_are_a_definitions_node_are_left_out() {
    let defs = vec![Symbol::new_def(String::from("x.c"), String::from("f"), rows(0, 0))];
    let refs = vec![capture("f", 0, 0), capture("f", 2, 2), capture("g", 0, 0)];
    let got = emit(&String::from("x.c"), &plain_rule(0), false, &refs, SymbolKind::REF, &defs);
    assert_eq!(got.len(), 2);
    assert_eq!(got[0].range.start_point.row, 2);
    assert_eq!(got[1].name, "g");
}

#[test]
fn line_depth_counts_the_scopes_strictly_around_a_line() {
    let outer = Symbol { file: String::from("f"), name: String::new(), range: rows(0, 10), kind: SymbolKind::NAMESPACE };
    let inner = Symbol { file: String::from("f"), name: String::new(), range: rows(2, 5), kind: SymbolKind::NAMESPACE };
    let manager = NamespaceManager::new(vec![&outer, &inner]);
    assert_eq!(manager.get_line_depth(0), 0);
    assert_eq!(manager.get_line_depth(1), 1);
    assert_eq!(manager.get_line_depth(2), 1);
    assert_eq!(manager.get_line_depth(3), 2);
    assert_eq!(manager.get_line_depth(5), 1);
    assert_eq!(manager.get_line_depth(10), 0);
    assert_eq!(manager.get_line_depth(11), 0);
    assert_eq!(NamespaceManager::new(Vec::new()).get_line_depth(3), 0);
}

#[test]
fn pruning_drops_scopes_and_deep_definitions() {
    let at = |kind: SymbolKind, name: &str, start: usize, end: usize| Symbol {
        file: String::from("f"),
        name: String::from(name),
        range: rows(start, end),
        kind,
    };
    let symbols = vec![
        at(SymbolKind::DEF, "top", 0, 0),
        at(SymbolKind::DEF, "once", 2, 2),
        at(SymbolKind::DEF, "twice", 4, 4),
        at(SymbolKind::REF, "deep_ref", 4, 4),
        at(SymbolKind::NAMESPACE, "", 1, 9),
        at(SymbolKind::NAMESPACE, "", 3, 6),
    ];
    let names = |level: usize| -> Vec<String> {
        prune_nested(&symbols, level).into_iter().map(|s| s.name).collect()
    };
    assert_eq!(names(0), vec!["top", "once", "twice", "deep_ref"]);
    assert_eq!(names(1), vec!["top", "deep_ref"]);
    assert_eq!(names(2), vec!["top", "once", "deep_ref"]);
    assert_eq!(names(3), vec!["top", "once", "twice", "deep_ref"]);
}

#[test]
fn text_is_sliced_between_character_boundaries() {
    let source = "héllo wörld";
    assert_eq!(slice_text(source, 0, 0), Some(String::new()));
    assert_eq!(slice_text(source, 0, 1), Some(String::from("h")));
    assert_eq!(slice_text(source, 1, 3), Some(String::from("é")));
    assert_eq!(slice_text(source, 0, 6), Some(String::from("héllo")));
    assert_eq!(slice_text(source, 7, 13), Some(String::from("wörld")));
    assert_eq!(slice_text(source, 13, 13), Some(String::new()));
    assert_eq!(slice_text(source, 0, 13), Some(String::from(source)));
    assert_eq!(slice_text(source, 1, 2), None);
    assert_eq!(slice_text(source, 2, 3), None);
    assert_eq!(slice_text(source, 3, 1), None);
    assert_eq!(slice_text(source, 0, 14), None);
    assert_eq!(slice_text(source, 14, 14), None);
    assert_eq!(slice_text("", 0, 0), Some(String::new()));
    assert_eq!(slice_text("", 0, 1), None);
}

#[test]
fn symbols_are_named_after_the_text_within_their_extent() {
    let source = "package shapes\n\nimport \"fmt\"\n\ntype Carré struct{}\n\nfunc (c *Carré) Aire() int {\n\tfmt.Println(\"é\")\n\treturn 1\n}\n";
    let symbols = Extractor::Go.extract(&String::from("carre.go"), &String::from(source));
    assert!(symbols.iter().any(|s| s.kind == SymbolKind::DEF && s.name == "Carré.Aire"));
    assert!(symbols.iter().any(|s| s.kind == SymbolKind::IMPORT && s.name == "fmt"));
    for symbol in &symbols {
        let text = slice_text(source, symbol.range.start_byte, symbol.range.end_byte)
            .expect("the extent of a symbol holds text");
        if symbol.kind == SymbolKind::IMPORT {
            assert_eq!(symbol.name, strip_quotes(&text));
        } else {
            assert!(symbol.name.ends_with(&text));
        }
    }
}

#[test]
fn captures_hold_the_text_within_their_extent() {
    let source = String::from("def área():\n    pass\n\nclass Ñu:\n    def cría(self):\n        área()\n");
    let captures = Extractor::Python.capture(&source).unwrap();
    assert!(!captures.defs.is_empty());
    assert!(!captures.refs.is_empty());
    for capture in captures.defs.iter().chain(captures.refs.iter()).chain(captures.deps.iter()) {
        assert_eq!(
            slice_text(&source, capture.range.start_byte, capture.range.end_byte),
            Some(capture.text.clone())
        );
        for scope in &capture.scopes {
            for text in [&scope.qualifier, &scope.name, &scope.identifier].into_iter().flatten() {
                assert!(source.contains(text.as_str()));
            }
            assert!(scope.identifier.is_none() || (scope.name.is_none() && !scope.names_capture));
        }
    }
    let names: Vec<&str> = captures.defs.iter().map(|c| c.text.as_str()).collect();
    assert_eq!(names, vec!["área", "Ñu", "cría"]);
}

#[test]
fn a_match_without_a_capture_gives_no_symbol() {
    let mut rule = get_rule(&Extractor::Python);
    rule.export_grammar = "(function_definition)";
    let source = String::from("def f(): pass\nf()\n");
    let captures = Extractor::Python.capture_with(&rule, &source).unwrap();
    assert!(captures.defs.is_empty());
    let names: Vec<&str> = captures.refs.iter().map(|c| c.text.as_str()).collect();
    assert!(names.contains(&"f"));
}

#[test]
fn a_query_may_test_the_text_of_a_node() {
    let mut rule = get_rule(&Extractor::Python);
    rule.export_grammar = "((function_definition name: (identifier) @name) (#eq? @name \"g\"))";
    let source = String::from("def f(): pass\ndef g(): pass\ndef h(): pass\n");
    let symbols = Extractor::Python.try_extract_with(&rule, &String::from("a.py"), &source).unwrap();
    let defs: Vec<&str> =
        symbols.iter().filter(|s| s.kind == SymbolKind::DEF).map(|s| s.name.as_str()).collect();
    assert_eq!(defs, vec!["g"]);
}

#[test]
fn two_extractions_of_one_text_are_equal() {
    let source = String::from("class A:\n    def f(self):\n        g()\n\ndef g(): pass\n");
    let file = String::from("a.py");
    let one = Extractor::Python.extract(&file, &source);
    let two = Extractor::Python.extract(&file, &source);
    assert!(!one.is_empty());
    assert_eq!(one, two);
    assert_eq!(
        Extractor::Python.try_extract(&file, &source).unwrap(),
        Extractor::Python.extract(&file, &source)
    );
}

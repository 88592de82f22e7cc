//! The per-language rules of extraction: tree queries for references,
//! definitions, imports and scopes, and the filters applied to what they
//! capture.
//!
//! Query syntax: https://tree-sitter.github.io/tree-sitter/using-parsers#query-syntax

use crate::extractor::Extractor;
use vstd::prelude::*;

verus! {

/// How symbols are found in the files of one language.
pub struct Rule {
    /// Which symbols are used (possibly imported) in a file.
    pub import_grammar: &'static str,
    /// Which symbols are exported from a file.
    pub export_grammar: &'static str,
    /// Which paths a file imports explicitly; may be empty.
    pub dep_grammar: &'static str,
    /// Which nodes form a scope.
    pub namespace_grammar: &'static str,
    /// Definitions nested in this many scopes or more are dropped; zero
    /// keeps them all.
    pub namespace_filter_level: usize,
    /// Captured names that are dropped.
    pub blacklist: Vec<&'static str>,
    /// Captured names that match are dropped.
    pub exclude_regex: Option<&'static str>,
}

/// The mathematical value of a [`Rule`].
pub struct RuleModel {
    pub import_grammar: Seq<char>,
    pub export_grammar: Seq<char>,
    pub dep_grammar: Seq<char>,
    pub namespace_grammar: Seq<char>,
    pub namespace_filter_level: usize,
    pub blacklist: Seq<Seq<char>>,
    pub exclude_regex: Option<Seq<char>>,
}

impl View for Rule {
    type V = RuleModel;

    open spec fn view(&self) -> RuleModel {
        RuleModel {
            import_grammar: self.import_grammar@,
            export_grammar: self.export_grammar@,
            dep_grammar: self.dep_grammar@,
            namespace_grammar: self.namespace_grammar@,
            namespace_filter_level: self.namespace_filter_level,
            blacklist: Seq::new(self.blacklist@.len(), |i: int| self.blacklist@[i]@),
            exclude_regex: match self.exclude_regex {
                Some(pattern) => Some(pattern@),
                None => None,
            },
        }
    }
}

pub const RUST_IMPORT: &'static str = r#"
(type_identifier) @variable_name
(identifier) @variable_name
(call_expression
  function: (identifier) @function)
(call_expression
  function: (field_expression
    field: (field_identifier) @function.method))
(call_expression
  function: (scoped_identifier
    "::"
    name: (identifier) @function))
"#;

pub const RUST_EXPORT: &'static str = r#"
(function_item name: (identifier) @exported_symbol)
(function_signature_item name: (identifier) @exported_symbol)
(generic_function
  function: (identifier) @exported_symbol)
(generic_function
  function: (scoped_identifier
    name: (identifier) @exported_symbol))
"#;

pub const RUST_DEP: &'static str = r#"
(use_declaration argument: (_) @dep)
"#;

pub const RUST_NAMESPACE: &'static str = r#"
(function_item) @body
(generic_function) @body
"#;

pub const TYPESCRIPT_IMPORT: &'static str = r#"
(identifier) @variable_name
(type_identifier) @variable_name
"#;

pub const TYPESCRIPT_EXPORT: &'static str = r#"
(export_statement (function_declaration name: (identifier) @exported_symbol))
(export_statement (arrow_function (identifier) @exported_symbol))
(export_statement (generator_function_declaration name: (identifier) @exported_symbol))
(method_definition name: (property_identifier) @exported_symbol)
(export_statement (type_alias_declaration name: (type_identifier) @exported_symbol))
(export_statement (interface_declaration name: (type_identifier) @exported_symbol))
(export_statement (class_declaration name: (type_identifier) @exported_symbol))
(export_specifier (identifier) @exported_symbol)
(lexical_declaration (variable_declarator name: (identifier) @lexical_symbol))
"#;

pub const TYPESCRIPT_DEP: &'static str = r#"
(import_statement source: (string) @dep)
"#;

pub const TYPESCRIPT_NAMESPACE: &'static str = r#"
(class_declaration) @body
(function_declaration) @body
(interface_declaration) @body
(method_definition) @body
"#;

pub const GO_IMPORT: &'static str = r#"
(identifier) @variable_name
(type_identifier) @variable_name
(field_identifier) @variable_name
"#;

pub const GO_EXPORT: &'static str = r#"
(function_declaration name: (identifier) @exported_symbol)
(method_declaration name: (field_identifier) @exported_symbol)
(type_alias name: (type_identifier) @exported_symbol)
(type_spec name: (type_identifier) @exported_symbol)
(const_spec name: (identifier) @exported_symbol)
(var_spec name: (identifier) @exported_symbol)
"#;

pub const GO_DEP: &'static str = r#"
(import_spec path: (interpreted_string_literal) @dep)
"#;

pub const GO_NAMESPACE: &'static str = r#"
(function_declaration) @body
(method_declaration) @body
"#;

pub const PYTHON_IMPORT: &'static str = r#"
(identifier) @variable_name
"#;

pub const PYTHON_EXPORT: &'static str = r#"
(function_definition name: (identifier) @exported_symbol)
(class_definition name: (identifier) @exported_symbol)
"#;

pub const PYTHON_DEP: &'static str = r#"
(import_statement name: (dotted_name) @dep)
(import_from_statement module_name: (dotted_name) @dep)
"#;

pub const PYTHON_NAMESPACE: &'static str = r#"
(function_definition) @body
(class_definition) @body
"#;

pub const JAVASCRIPT_IMPORT: &'static str = r#"
(identifier) @variable_name
"#;

pub const JAVASCRIPT_EXPORT: &'static str = r#"
(function_declaration name: (identifier) @exported_symbol)
(class_declaration name: (identifier) @exported_symbol)
"#;

pub const JAVASCRIPT_DEP: &'static str = r#"
(import_statement source: (string) @dep)
"#;

pub const JAVASCRIPT_NAMESPACE: &'static str = r#"
(function_declaration) @body
(class_declaration) @body
"#;

pub const JAVA_IMPORT: &'static str = r#"
(identifier) @variable_name
(type_identifier) @variable_name
"#;

pub const JAVA_EXPORT: &'static str = r#"
(class_declaration name: (identifier) @exported_symbol)
(interface_declaration name: (identifier) @exported_symbol)
(enum_declaration name: (identifier) @exported_symbol)
(method_declaration name: (identifier) @exported_symbol)
"#;

pub const JAVA_DEP: &'static str = r#"
(import_declaration (scoped_identifier) @dep)
"#;

pub const JAVA_NAMESPACE: &'static str = r#"
(class_declaration) @body
(interface_declaration) @body
(method_declaration) @body
"#;

pub const KOTLIN_IMPORT: &'static str = r#"
(identifier (simple_identifier) @variable_name)
"#;

pub const KOTLIN_EXPORT: &'static str = r#"
(class_declaration (type_identifier) @exported_symbol)
(function_declaration (simple_identifier) @exported_symbol)
"#;

pub const KOTLIN_DEP: &'static str = r#"
(import_header (identifier) @dep)
"#;

pub const SWIFT_IMPORT: &'static str = r#"
((simple_identifier) @exported_symbol)
"#;

pub const SWIFT_EXPORT: &'static str = r#"
(function_declaration (simple_identifier) @method)
"#;

pub const SWIFT_DEP: &'static str = r#"
(import_declaration (identifier) @dep)
"#;

pub const CSHARP_IMPORT: &'static str = r#"
(identifier) @variable_name
"#;

pub const CSHARP_EXPORT: &'static str = r#"
(class_declaration name: (identifier) @exported_symbol)
(interface_declaration name: (identifier) @exported_symbol)
(struct_declaration name: (identifier) @exported_symbol)
(enum_declaration name: (identifier) @exported_symbol)
(method_declaration name: (identifier) @exported_symbol)
(property_declaration name: (identifier) @exported_symbol)
(field_declaration (variable_declaration (variable_declarator (identifier) @exported_symbol)))
"#;

pub const CSHARP_DEP: &'static str = r#"
(using_directive (qualified_name) @dep)
(using_directive (identifier) @dep)
"#;

pub const CSHARP_NAMESPACE: &'static str = r#"
(namespace_declaration) @body
(class_declaration) @body
(struct_declaration) @body
(interface_declaration) @body
"#;

pub const C_IMPORT: &'static str = r#"
(identifier) @variable_name
(type_identifier) @variable_name
(field_identifier) @variable_name
"#;

pub const C_EXPORT: &'static str = r#"
(function_declarator declarator: (identifier) @exported_symbol)
(struct_specifier name: (type_identifier) @exported_symbol body: (_))
(enum_specifier name: (type_identifier) @exported_symbol body: (_))
(type_definition declarator: (type_identifier) @exported_symbol)
"#;

pub const C_DEP: &'static str = r#"
(preproc_include path: (_) @dep)
"#;

pub const C_NAMESPACE: &'static str = r#"
(function_definition) @body
"#;

pub const CPP_IMPORT: &'static str = r#"
(identifier) @variable_name
(type_identifier) @variable_name
(field_identifier) @variable_name
(namespace_identifier) @variable_name
"#;

pub const CPP_EXPORT: &'static str = r#"
(function_declarator declarator: (identifier) @exported_symbol)
(function_declarator declarator: (field_identifier) @exported_symbol)
(class_specifier name: (type_identifier) @exported_symbol body: (_))
(struct_specifier name: (type_identifier) @exported_symbol body: (_))
(enum_specifier name: (type_identifier) @exported_symbol body: (_))
(type_definition declarator: (type_identifier) @exported_symbol)
"#;

pub const CPP_NAMESPACE: &'static str = r#"
(function_definition) @body
(class_specifier) @body
(struct_specifier) @body
(namespace_definition) @body
"#;

/// The four queries of a language: references, definitions, imports, scopes.
pub open spec fn grammars(extractor: Extractor) -> (Seq<char>, Seq<char>, Seq<char>, Seq<char>) {
    match extractor {
        Extractor::Rust => (RUST_IMPORT@, RUST_EXPORT@, RUST_DEP@, RUST_NAMESPACE@),
        Extractor::TypeScript => (
            TYPESCRIPT_IMPORT@,
            TYPESCRIPT_EXPORT@,
            TYPESCRIPT_DEP@,
            TYPESCRIPT_NAMESPACE@,
        ),
        Extractor::Go => (GO_IMPORT@, GO_EXPORT@, GO_DEP@, GO_NAMESPACE@),
        Extractor::Python => (PYTHON_IMPORT@, PYTHON_EXPORT@, PYTHON_DEP@, PYTHON_NAMESPACE@),
        Extractor::JavaScript => (
            JAVASCRIPT_IMPORT@,
            JAVASCRIPT_EXPORT@,
            JAVASCRIPT_DEP@,
            JAVASCRIPT_NAMESPACE@,
        ),
        Extractor::Java => (JAVA_IMPORT@, JAVA_EXPORT@, JAVA_DEP@, JAVA_NAMESPACE@),
        Extractor::Kotlin => (KOTLIN_IMPORT@, KOTLIN_EXPORT@, KOTLIN_DEP@, ""@),
        Extractor::Swift => (SWIFT_IMPORT@, SWIFT_EXPORT@, SWIFT_DEP@, ""@),
        Extractor::CSharp => (CSHARP_IMPORT@, CSHARP_EXPORT@, CSHARP_DEP@, CSHARP_NAMESPACE@),
        Extractor::C => (C_IMPORT@, C_EXPORT@, C_DEP@, C_NAMESPACE@),
        Extractor::Cpp => (CPP_IMPORT@, CPP_EXPORT@, C_DEP@, CPP_NAMESPACE@),
    }
}

/// The nesting depth from which a language's definitions are dropped.
pub open spec fn filter_level(extractor: Extractor) -> usize {
    match extractor {
        Extractor::Rust => 1,
        Extractor::TypeScript => 1,
        Extractor::Go => 1,
        Extractor::Python => 2,
        Extractor::JavaScript => 2,
        Extractor::Java => 2,
        Extractor::Kotlin => 0,
        Extractor::Swift => 0,
        Extractor::CSharp => 1,
        Extractor::C => 1,
        Extractor::Cpp => 2,
    }
}

/// The names that a language's captures may not have.
pub open spec fn blacklist(extractor: Extractor) -> Seq<Seq<char>> {
    match extractor {
        Extractor::Rust => seq!["self"@, "Self"@],
        Extractor::Go => seq!["_"@],
        Extractor::Python => seq!["self"@, "cls"@],
        Extractor::Swift => seq!["self"@],
        Extractor::C => Seq::empty(),
        _ => seq!["this"@],
    }
}

/// The rule of each language.
pub open spec fn rule_of(extractor: Extractor) -> RuleModel {
    RuleModel {
        import_grammar: grammars(extractor).0,
        export_grammar: grammars(extractor).1,
        dep_grammar: grammars(extractor).2,
        namespace_grammar: grammars(extractor).3,
        namespace_filter_level: filter_level(extractor),
        blacklist: blacklist(extractor),
        exclude_regex: None,
    }
}

fn rule_with(
    import_grammar: &'static str,
    export_grammar: &'static str,
    dep_grammar: &'static str,
    namespace_grammar: &'static str,
    namespace_filter_level: usize,
    blacklist: Vec<&'static str>,
) -> (r: Rule)
    ensures
        r.import_grammar == import_grammar,
        r.export_grammar == export_grammar,
        r.dep_grammar == dep_grammar,
        r.namespace_grammar == namespace_grammar,
        r.namespace_filter_level == namespace_filter_level,
        r.blacklist == blacklist,
        r.exclude_regex is None,
{
    Rule {
        import_grammar,
        export_grammar,
        dep_grammar,
        namespace_grammar,
        namespace_filter_level,
        blacklist,
        exclude_regex: None,
    }
}

/// The rule by which the files of a language are read.
pub fn get_rule(extractor_type: &Extractor) -> (r: Rule)
    ensures
        r@ == rule_of(*extractor_type),
{
    let r = match extractor_type {
        Extractor::Rust => rule_with(
            RUST_IMPORT,
            RUST_EXPORT,
            RUST_DEP,
            RUST_NAMESPACE,
            1,
            vec!["self", "Self"],
        ),
        Extractor::TypeScript => rule_with(
            TYPESCRIPT_IMPORT,
            TYPESCRIPT_EXPORT,
            TYPESCRIPT_DEP,
            TYPESCRIPT_NAMESPACE,
            1,
            vec!["this"],
        ),
        Extractor::Go => rule_with(GO_IMPORT, GO_EXPORT, GO_DEP, GO_NAMESPACE, 1, vec!["_"]),
        Extractor::Python => rule_with(
            PYTHON_IMPORT,
            PYTHON_EXPORT,
            PYTHON_DEP,
            PYTHON_NAMESPACE,
            2,
            vec!["self", "cls"],
        ),
        Extractor::JavaScript => rule_with(
            JAVASCRIPT_IMPORT,
            JAVASCRIPT_EXPORT,
            JAVASCRIPT_DEP,
            JAVASCRIPT_NAMESPACE,
            2,
            vec!["this"],
        ),
        Extractor::Java => rule_with(
            JAVA_IMPORT,
            JAVA_EXPORT,
            JAVA_DEP,
            JAVA_NAMESPACE,
            2,
            vec!["this"],
        ),
        Extractor::Kotlin => rule_with(KOTLIN_IMPORT, KOTLIN_EXPORT, KOTLIN_DEP, "", 0, vec!["this"]),
        Extractor::Swift => rule_with(SWIFT_IMPORT, SWIFT_EXPORT, SWIFT_DEP, "", 0, vec!["self"]),
        Extractor::CSharp => rule_with(
            CSHARP_IMPORT,
            CSHARP_EXPORT,
            CSHARP_DEP,
            CSHARP_NAMESPACE,
            1,
            vec!["this"],
        ),
        Extractor::C => rule_with(C_IMPORT, C_EXPORT, C_DEP, C_NAMESPACE, 1, Vec::new()),
        Extractor::Cpp => rule_with(CPP_IMPORT, CPP_EXPORT, C_DEP, CPP_NAMESPACE, 2, vec!["this"]),
    };
    assert(r@.blacklist =~= blacklist(*extractor_type));
    r
}

} // verus!

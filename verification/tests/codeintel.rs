use sifter::codeintel::{CodeRelation, CodeSymbol, LanguagePlugin, PluginRegistry, RelationKind, SymbolKind};
use sifter::rust_plugin::RustPlugin;
use std::path::Path;

struct FakePlugin;

impl LanguagePlugin for FakePlugin {
    fn language_name(&self) -> &'static str {
        "fake"
    }

    fn matches_path(&self, path: &str) -> bool {
        Path::new(path).extension().and_then(|ext| ext.to_str()) == Some("fake")
    }

    fn extract_symbols(&self, _source: &str, _path: &str) -> Vec<CodeSymbol> {
        vec![CodeSymbol {
            name: "Example".to_string(),
            kind: SymbolKind::Struct,
            line_start: 1,
            line_end: 1,
            scope: None,
        }]
    }

    fn extract_relations(&self, _source: &str, _path: &str) -> Vec<CodeRelation> {
        Vec::new()
    }
}

#[test]
fn registry_selects_matching_plugin() {
    let mut registry = PluginRegistry::new();
    registry.register(FakePlugin);

    let plugin = registry.plugin_for_path("demo.fake").expect("plugin");
    assert_eq!(plugin.language_name(), "fake");
}

#[test]
fn registry_finds_no_plugin_for_unknown_extension() {
    let mut registry = PluginRegistry::new();
    registry.register(FakePlugin);
    assert!(registry.plugin_for_path("demo.rs").is_none());
}

#[test]
fn symbol_kind_names_are_snake_case() {
    let kinds = [
        (SymbolKind::Function, "function"),
        (SymbolKind::Struct, "struct"),
        (SymbolKind::Enum, "enum"),
        (SymbolKind::Trait, "trait"),
        (SymbolKind::Impl, "impl"),
        (SymbolKind::Constant, "constant"),
        (SymbolKind::TypeAlias, "type_alias"),
        (SymbolKind::Module, "module"),
    ];
    for (kind, name) in kinds {
        assert_eq!(kind.as_str(), name);
    }
}

#[test]
fn extracts_top_level_symbols_with_line_ranges() {
    let source = r#"
pub struct RetryPolicy;
pub enum RetryMode { Fast }
pub trait Retryable {}
impl RetryPolicy {}
pub const DEFAULT_BUDGET: usize = 3;
pub type Budget = usize;
pub mod nested {}
pub fn retry_budget() -> usize { 3 }
"#;

    let plugin = RustPlugin;
    let symbols = plugin.extract_symbols(source, "src/retry.rs");

    let summary = symbols
        .into_iter()
        .map(|symbol| (symbol.name, symbol.kind.as_str().to_string(), symbol.line_start))
        .collect::<Vec<_>>();

    assert_eq!(
        summary,
        vec![
            ("RetryPolicy".to_string(), "struct".to_string(), 2),
            ("RetryMode".to_string(), "enum".to_string(), 3),
            ("Retryable".to_string(), "trait".to_string(), 4),
            ("RetryPolicy".to_string(), "impl".to_string(), 5),
            ("DEFAULT_BUDGET".to_string(), "constant".to_string(), 6),
            ("Budget".to_string(), "type_alias".to_string(), 7),
            ("nested".to_string(), "module".to_string(), 8),
            ("retry_budget".to_string(), "function".to_string(), 9),
        ]
    );
}

#[test]
fn rust_plugin_handles_rs_files_only() {
    let plugin = RustPlugin;
    assert_eq!(plugin.language_name(), "rust");
    assert!(plugin.matches_path("src/lib.rs"));
    assert!(!plugin.matches_path("README.md"));
    assert!(!plugin.matches_path("rs"));
}

#[test]
fn impl_of_trait_is_named_by_its_type() {
    let plugin = RustPlugin;
    let symbols = plugin.extract_symbols("struct A;\nimpl Clone for A { fn clone(&self) -> A { A } }\n", "a.rs");
    let names = symbols
        .iter()
        .map(|s| (s.name.clone(), s.kind.as_str(), s.line_start, s.line_end))
        .collect::<Vec<_>>();
    assert_eq!(names, vec![("A".to_string(), "struct", 1, 1), ("A".to_string(), "impl", 2, 2)]);
}

#[test]
fn rust_relations_import_and_mention_names() {
    let plugin = RustPlugin;
    let source = "use crate::RetryPolicy;\n\npub fn build(policy: RetryPolicy) -> RetryPolicy { policy }\n";
    let relations = plugin.extract_relations(source, "src/client.rs");
    let found = relations
        .iter()
        .map(|r| (r.name.as_str(), r.kind.as_str(), r.line_start, r.line_end))
        .collect::<Vec<_>>();
    assert_eq!(
        found,
        vec![
            ("RetryPolicy", "import", 1, 1),
            ("policy", "mention", 3, 3),
            ("RetryPolicy", "mention", 3, 3),
            ("RetryPolicy", "mention", 3, 3),
            ("policy", "mention", 3, 3),
        ]
    );
    assert_eq!(RelationKind::Import.as_str(), "import");
}

#[test]
fn definition_names_are_not_mentions() {
    let plugin = RustPlugin;
    let relations = plugin.extract_relations("pub struct RetryPolicy;\nfn f() {}\n", "src/lib.rs");
    assert!(relations.is_empty());
}

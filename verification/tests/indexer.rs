use sifter::config::Collection;
use sifter::indexer::{skipped_by_default, CollectionGlob, GlobError};

#[test]
fn junk_directories_are_skipped_by_default() {
    assert!(skipped_by_default(".git/config"));
    assert!(skipped_by_default("target/debug/build.rs"));
    assert!(skipped_by_default("web/node_modules/pkg/index.js"));
    assert!(skipped_by_default("a/dist/bundle.js"));
    assert!(skipped_by_default("build/out.txt"));
    assert!(skipped_by_default(".direnv/env"));
}

#[test]
fn ordinary_paths_are_kept() {
    assert!(!skipped_by_default("src/lib.rs"));
    assert!(!skipped_by_default("build.rs"));
    assert!(!skipped_by_default("docs/target"));
    assert!(!skipped_by_default("targets/x.md"));
    assert!(!skipped_by_default("my.git/x"));
    assert!(!skipped_by_default(""));
}

fn collection(pattern: &str) -> Collection {
    Collection {
        path: "/srv/repo".to_string(),
        pattern: pattern.to_string(),
        ignore: Vec::new(),
        context: None,
        update: None,
        include_by_default: true,
    }
}

#[test]
fn collection_pattern_selects_files() {
    let glob = CollectionGlob::of_collection(&collection("**/*.md")).expect("valid pattern");
    assert!(glob.selects("docs/brief.md"));
    assert!(glob.selects("README.md"));
    assert!(!glob.selects("src/lib.rs"));
    assert!(!glob.selects("node_modules/pkg/README.md"));
    let all = CollectionGlob::of_collection(&collection("**/*")).expect("valid pattern");
    assert!(all.selects("src/lib.rs"));
    assert!(!all.selects("target/debug/out.rs"));
}

#[test]
fn invalid_collection_pattern_is_reported() {
    match CollectionGlob::of_collection(&collection("a[")) {
        Err(GlobError::Pattern(m)) => assert!(!m.is_empty()),
        _ => panic!("expected a pattern error"),
    }
    assert_eq!(
        GlobError::Build("too many states".to_string()).message(),
        "failed to build collection glob: too many states"
    );
    assert_eq!(GlobError::Pattern("unclosed class".to_string()).message(), "unclosed class");
}

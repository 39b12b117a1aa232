use sifter::index::{
    apply_line_slice, chunk_docid_for, chunk_file, chunk_markdown, classify_kind, docid_for, infer_title,
    lexical_index_dir, lookup_key, parse_line_suffix, rank_related, relation_weight, status_report, IndexError,
    IndexedFile, LineSlice, LookupKey, ParsedReference, RelationRow,
};

#[test]
fn markdown_chunking_splits_on_headings_outside_code_fences() {
    let content = "# One\nalpha\n```rust\n# not a heading\n```\n## Two\nbeta\n";
    let chunks = chunk_markdown("repo", "docs/test.md", content, "test");
    let summary = chunks
        .iter()
        .map(|chunk| (chunk.title.clone(), chunk.line_start, chunk.line_end))
        .collect::<Vec<_>>();
    assert_eq!(summary, vec![("One".to_string(), 1, 5), ("Two".to_string(), 6, 7)]);
}

#[test]
fn parse_line_suffix_extracts_reference_and_line() {
    assert_eq!(
        parse_line_suffix("sifter://repo/docs/brief.md:12"),
        ("sifter://repo/docs/brief.md".to_string(), Some(12))
    );
}

#[test]
fn parse_line_suffix_edge_cases() {
    assert_eq!(parse_line_suffix("notes.md"), ("notes.md".to_string(), None));
    assert_eq!(parse_line_suffix("a:b"), ("a:b".to_string(), None));
    assert_eq!(parse_line_suffix("a:"), ("a".to_string(), None));
    assert_eq!(parse_line_suffix("x:1:20"), ("x:1".to_string(), Some(20)));
    assert_eq!(
        parse_line_suffix("f:99999999999999999999999999"),
        ("f".to_string(), None)
    );
}

#[test]
fn line_suffix_round_trips() {
    for n in [0usize, 1, 9, 10, 1234, usize::MAX] {
        let text = format!("sifter://r/a:b.md:{n}");
        assert_eq!(parse_line_suffix(&text), ("sifter://r/a:b.md".to_string(), Some(n)));
    }
}

#[test]
fn parsed_reference_keeps_fallback_length_and_numbering() {
    let fallback = Some(LineSlice { start: 1, max_lines: Some(5), line_numbers: true });
    let parsed = ParsedReference::parse("docs/a.md:7", fallback);
    assert_eq!(parsed.reference, "docs/a.md");
    assert_eq!(parsed.slice, Some(LineSlice { start: 7, max_lines: Some(5), line_numbers: true }));
    let plain = ParsedReference::parse("docs/a.md", fallback);
    assert_eq!(plain.slice, fallback);
    let bare = ParsedReference::parse("docs/a.md:3", None);
    assert_eq!(bare.slice, Some(LineSlice { start: 3, max_lines: None, line_numbers: false }));
}

#[test]
fn classification_by_extension() {
    assert_eq!(classify_kind("/r/docs/brief.md"), "doc");
    assert_eq!(classify_kind("/r/notes.txt"), "doc");
    assert_eq!(classify_kind("/r/a.mdx"), "doc");
    assert_eq!(classify_kind("/r/a.rst"), "doc");
    assert_eq!(classify_kind("/r/src/lib.rs"), "code");
    assert_eq!(classify_kind("/r/.md"), "code");
    assert_eq!(classify_kind("/r/Makefile"), "code");
}

#[test]
fn titles_come_from_first_heading_of_documents() {
    assert_eq!(infer_title("/r/brief.md", "intro\n#  Retry Budget  \n## Other\n"), "Retry Budget");
    assert_eq!(infer_title("/r/brief.md", "#\n# Later\n"), "brief.md");
    assert_eq!(infer_title("/r/lib.rs", "# not a title\n"), "lib.rs");
    assert_eq!(infer_title("/", "text"), "untitled");
}

#[test]
fn ids_are_hex_prefixes_of_the_content_hash() {
    let id = docid_for("repo", "docs/a.md", "hello");
    assert_eq!(id.len(), 12);
    assert!(id.chars().all(|c| c.is_ascii_hexdigit()));
    let expected = blake3::hash(b"repodocs/a.mdhello").to_hex().to_string();
    assert_eq!(id, expected[..12]);
    let chunk = chunk_docid_for("repo", "docs/a.md", 3, "hello");
    let expected = blake3::hash(b"repodocs/a.md3hello").to_hex().to_string();
    assert_eq!(chunk, expected[..16]);
    assert_ne!(docid_for("repo", "docs/a.md", "hello!"), id);
}

#[test]
fn code_files_are_one_chunk() {
    let chunks = chunk_file("repo", "src/lib.rs", "/r/src/lib.rs", "fn a() {}\n\nfn b() {}\n");
    assert_eq!(chunks.len(), 1);
    assert_eq!(chunks[0].title, "lib.rs");
    assert_eq!((chunks[0].line_start, chunks[0].line_end), (1, 3));
    let empty = chunk_file("repo", "src/e.rs", "/r/src/e.rs", "");
    assert_eq!((empty[0].line_start, empty[0].line_end), (1, 1));
}

#[test]
fn document_without_headings_is_one_chunk_with_fallback_title() {
    let chunks = chunk_file("repo", "notes.md", "/r/notes.md", "alpha\nbeta");
    assert_eq!(chunks.len(), 1);
    assert_eq!(chunks[0].title, "notes.md");
    assert_eq!(chunks[0].content, "alpha\nbeta");
    assert_eq!((chunks[0].line_start, chunks[0].line_end), (1, 2));
    assert!(chunk_markdown("repo", "e.md", "", "e").is_empty());
}

#[test]
fn markdown_chunks_cover_every_line() {
    let content = "pre\n# A\na\r\n# B\n```\n# C\n```\nb\n";
    let chunks = chunk_markdown("repo", "d.md", content, "d");
    let ranges = chunks.iter().map(|c| (c.title.clone(), c.line_start, c.line_end)).collect::<Vec<_>>();
    assert_eq!(
        ranges,
        vec![("d".to_string(), 1, 1), ("A".to_string(), 2, 3), ("B".to_string(), 4, 8)]
    );
    assert_eq!(chunks[1].content, "# A\na");
}

fn sample_file(content: &str) -> IndexedFile {
    IndexedFile {
        docid: "abc".to_string(),
        collection: "repo".to_string(),
        path: "/r/a.md".to_string(),
        virtual_path: "sifter://repo/a.md".to_string(),
        kind: "doc".to_string(),
        title: "A".to_string(),
        language: None,
        context: None,
        content: content.to_string(),
        line_start: 1,
        line_end: 4,
    }
}

#[test]
fn line_slices_select_and_number_lines() {
    let mut file = sample_file("one\ntwo\nthree\nfour");
    apply_line_slice(&mut file, LineSlice { start: 2, max_lines: Some(2), line_numbers: true }).unwrap();
    assert_eq!(file.content, "   2: two\n   3: three");
    assert_eq!((file.line_start, file.line_end), (2, 3));

    let mut file = sample_file("one\ntwo\nthree\nfour");
    apply_line_slice(&mut file, LineSlice { start: 3, max_lines: None, line_numbers: false }).unwrap();
    assert_eq!(file.content, "three\nfour");
    assert_eq!((file.line_start, file.line_end), (3, 4));

    let mut file = sample_file("one\ntwo");
    apply_line_slice(&mut file, LineSlice { start: 1, max_lines: Some(usize::MAX), line_numbers: false }).unwrap();
    assert_eq!(file.content, "one\ntwo");

    let mut file = sample_file("one\ntwo");
    apply_line_slice(&mut file, LineSlice { start: 2, max_lines: Some(0), line_numbers: false }).unwrap();
    assert_eq!(file.content, "");
    assert_eq!((file.line_start, file.line_end), (2, 2));
}

#[test]
fn line_slice_errors() {
    let mut file = sample_file("one\ntwo");
    let err = apply_line_slice(&mut file, LineSlice { start: 0, max_lines: None, line_numbers: false });
    assert_eq!(err, Err(IndexError::LineNumbersStartAtOne));
    assert_eq!(IndexError::LineNumbersStartAtOne.message(), "line numbers are 1-based");
    let err = apply_line_slice(&mut file, LineSlice { start: 3, max_lines: None, line_numbers: false });
    assert_eq!(err, Err(IndexError::LineOutOfRange(3)));
    assert_eq!(IndexError::LineOutOfRange(3).message(), "line 3 is out of range");
    assert_eq!(file.content, "one\ntwo");

    let mut empty = sample_file("");
    assert_eq!(apply_line_slice(&mut empty, LineSlice { start: 9, max_lines: None, line_numbers: true }), Ok(()));
    assert_eq!(empty.content, "");
}

#[test]
fn lookup_keys_follow_reference_form() {
    assert_eq!(lookup_key("##abc123"), LookupKey::Docid("abc123".to_string()));
    assert_eq!(
        lookup_key("sifter://repo/a.md"),
        LookupKey::VirtualPath("sifter://repo/a.md".to_string())
    );
    assert_eq!(lookup_key("docs/a.md"), LookupKey::FilePath("docs/a.md".to_string()));
}

#[test]
fn lexical_index_sits_beside_the_database() {
    assert_eq!(lexical_index_dir("/home/u/.cache/sifter/default.sqlite3").unwrap(), "/home/u/.cache/sifter/default.tantivy");
    assert_eq!(lexical_index_dir("/"), Err(IndexError::InvalidDatabasePath));
    assert_eq!(lexical_index_dir("db.sqlite3").unwrap(), "db.tantivy");
}

#[test]
fn relation_weights() {
    assert_eq!(relation_weight("import"), 3);
    assert_eq!(relation_weight("mention"), 1);
    assert_eq!(relation_weight("other"), 1);
}

fn row(docid: &str, path: &str, name: &str, kind: &str) -> RelationRow {
    RelationRow {
        docid: docid.to_string(),
        path: path.to_string(),
        collection: "repo".to_string(),
        name: name.to_string(),
        kind: kind.to_string(),
    }
}

#[test]
fn related_files_rank_by_score_then_path() {
    let targets = vec!["RetryPolicy".to_string(), "Budget".to_string()];
    let rows = vec![
        row("d2", "/r/b.rs", "RetryPolicy", "mention"),
        row("d1", "/r/a.rs", "Budget", "mention"),
        row("d3", "/r/c.rs", "RetryPolicy", "import"),
        row("d1", "/r/a.rs", "RetryPolicy", "mention"),
        row("d2", "/r/b.rs", "Other", "import"),
        row("d1", "/r/a.rs", "Budget", "mention"),
    ];
    let hits = rank_related(&targets, &Vec::new(), &rows, &Vec::new());
    let summary = hits
        .iter()
        .map(|h| (h.file.clone(), h.score, h.shared_symbols.clone()))
        .collect::<Vec<_>>();
    assert_eq!(
        summary,
        vec![
            ("/r/a.rs".to_string(), 3, vec!["Budget".to_string(), "RetryPolicy".to_string()]),
            ("/r/c.rs".to_string(), 3, vec!["RetryPolicy".to_string()]),
            ("/r/b.rs".to_string(), 1, vec!["RetryPolicy".to_string()]),
        ]
    );
    assert!(rank_related(&Vec::new(), &Vec::new(), &rows, &Vec::new()).is_empty());
}

#[test]
fn files_defining_what_the_target_uses_are_related() {
    // The target (client.rs) imports and mentions RetryPolicy, which lib.rs defines.
    let target_symbols = vec!["build".to_string()];
    let target_rows = vec![
        row("c", "/r/src/client.rs", "RetryPolicy", "import"),
        row("c", "/r/src/client.rs", "policy", "mention"),
        row("c", "/r/src/client.rs", "RetryPolicy", "mention"),
    ];
    let definitions = vec![
        row("l", "/r/src/lib.rs", "RetryPolicy", "struct"),
        row("l", "/r/src/lib.rs", "retry_budget", "function"),
        row("m", "/r/src/main.rs", "policy", "function"),
    ];
    let hits = rank_related(&target_symbols, &target_rows, &Vec::new(), &definitions);
    let summary = hits
        .iter()
        .map(|h| (h.file.clone(), h.score, h.shared_symbols.clone()))
        .collect::<Vec<_>>();
    assert_eq!(
        summary,
        vec![
            ("/r/src/lib.rs".to_string(), 3, vec!["RetryPolicy".to_string()]),
            ("/r/src/main.rs".to_string(), 1, vec!["policy".to_string()]),
        ]
    );
}

#[test]
fn references_and_definitions_add_up() {
    let target_symbols = vec!["Budget".to_string()];
    let target_rows = vec![row("t", "/r/t.rs", "Helper", "mention")];
    let rows = vec![row("a", "/r/a.rs", "Budget", "import")];
    let definitions = vec![row("a", "/r/a.rs", "Helper", "function"), row("b", "/r/b.rs", "Unused", "struct")];
    let hits = rank_related(&target_symbols, &target_rows, &rows, &definitions);
    assert_eq!(hits.len(), 1);
    assert_eq!(hits[0].file, "/r/a.rs");
    assert_eq!(hits[0].score, 4);
    assert_eq!(hits[0].shared_symbols, vec!["Budget".to_string(), "Helper".to_string()]);
}

#[test]
fn status_reports_pending_vector_runtime() {
    let s = status_report(3, 1, 2, 1);
    assert_eq!((s.indexed_files, s.indexed_docs, s.indexed_code, s.collections), (3, 1, 2, 1));
    assert!(!s.has_vector_index);
    assert_eq!(s.vector_runtime, "pending");
}

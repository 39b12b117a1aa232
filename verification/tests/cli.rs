use sifter::cli::{
    csv_cell, csv_header, csv_row, empty_index_warning, no_results_hint, xml_close, xml_empty, xml_leaf, xml_open, output_format, search_plan, show_plan, xml_escape, OutputFlags, OutputFormat, SearchPlan,
    SearchRequest, UsageError,
};
use sifter::index::{LineSlice, SearchKind, SymbolMode};

fn flags() -> OutputFlags {
    OutputFlags { json: false, csv: false, md: false, xml: false, files: false, full: false }
}

fn request() -> SearchRequest {
    SearchRequest {
        query: Some("retry budget".to_string()),
        semantic: false,
        hybrid: false,
        symbol: None,
        refs: false,
        related: None,
        docs: false,
        code: false,
        full: false,
        files_output: false,
    }
}

#[test]
fn output_format_defaults_to_json_off_terminal() {
    assert_eq!(output_format(flags(), false), OutputFormat::Json);
    assert_eq!(output_format(flags(), true), OutputFormat::Human);
    assert_eq!(output_format(OutputFlags { json: true, ..flags() }, true), OutputFormat::Json);
    assert_eq!(output_format(OutputFlags { csv: true, json: true, ..flags() }, false), OutputFormat::Csv);
    assert_eq!(output_format(OutputFlags { md: true, ..flags() }, true), OutputFormat::Markdown);
    assert_eq!(output_format(OutputFlags { xml: true, ..flags() }, true), OutputFormat::Xml);
    assert_eq!(output_format(OutputFlags { files: true, ..flags() }, true), OutputFormat::Files);
}

#[test]
fn semantic_and_hybrid_search_return_pending_runtime_error() {
    match search_plan(SearchRequest { semantic: true, ..request() }) {
        Ok(SearchPlan::VectorPending { command, query }) => {
            assert_eq!(command, "search --semantic");
            assert_eq!(query, "retry budget");
        }
        _ => panic!("expected pending"),
    }
    match search_plan(SearchRequest { hybrid: true, ..request() }) {
        Ok(SearchPlan::VectorPending { command, .. }) => assert_eq!(command, "search --hybrid"),
        _ => panic!("expected pending"),
    }
}

#[test]
fn search_plans_follow_flag_precedence() {
    match search_plan(SearchRequest { symbol: Some("RetryPolicy".to_string()), refs: true, ..request() }) {
        Ok(SearchPlan::Symbol { name, mode }) => {
            assert_eq!(name, "RetryPolicy");
            assert_eq!(mode, SymbolMode::References);
        }
        _ => panic!("expected symbol"),
    }
    match search_plan(SearchRequest { related: Some("src/lib.rs".to_string()), query: None, ..request() }) {
        Ok(SearchPlan::Related { reference }) => assert_eq!(reference, "src/lib.rs"),
        _ => panic!("expected related"),
    }
    match search_plan(SearchRequest { query: None, ..request() }) {
        Err(e) => {
            assert_eq!(e, UsageError::MissingQuery);
            assert_eq!(e.message(), "search requires a query");
        }
        _ => panic!("expected error"),
    }
    match search_plan(SearchRequest { docs: true, full: true, ..request() }) {
        Ok(SearchPlan::Lexical { query, options, files_only }) => {
            assert_eq!(query, "retry budget");
            assert_eq!(options.kind, Some(SearchKind::Doc));
            assert!(options.include_full_content);
            assert!(!files_only);
        }
        _ => panic!("expected lexical"),
    }
    match search_plan(SearchRequest { code: true, ..request() }) {
        Ok(SearchPlan::Lexical { options, .. }) => assert_eq!(options.kind, Some(SearchKind::Code)),
        _ => panic!("expected lexical"),
    }
}

#[test]
fn show_plans() {
    assert_eq!(show_plan(&Vec::new(), None, false).err(), Some(UsageError::MissingReference));
    let one = vec!["docs/a.md".to_string()];
    let plan = show_plan(&one, Some(10), false).unwrap();
    assert!(plan.single);
    assert_eq!(plan.slice, Some(LineSlice { start: 1, max_lines: Some(10), line_numbers: false }));
    let glob = vec!["docs/*.md".to_string()];
    let plan = show_plan(&glob, None, false).unwrap();
    assert!(!plan.single);
    assert_eq!(plan.slice, None);
    let two = vec!["a".to_string(), "b".to_string()];
    assert!(!show_plan(&two, None, true).unwrap().single);
}

#[test]
fn escaping_for_xml_and_csv() {
    assert_eq!(xml_escape("a < b && c > d"), "a &lt; b &amp;&amp; c &gt; d");
    assert_eq!(csv_cell("say \"hi\""), "\"say \"\"hi\"\"\"");
    assert_eq!(csv_cell(""), "\"\"");
}

#[test]
fn empty_index_update_warns() {
    assert_eq!(
        empty_index_warning(0).as_deref(),
        Some("no files were indexed; inspect the collection path, mask and ignore rules")
    );
    assert_eq!(empty_index_warning(3), None);
}

#[test]
fn empty_search_on_a_terminal_hints() {
    assert_eq!(
        no_results_hint(0, OutputFormat::Human).as_deref(),
        Some("no results; try a broader query, or run `sifter index update` after files change")
    );
    assert_eq!(no_results_hint(0, OutputFormat::Json), None);
    assert_eq!(no_results_hint(2, OutputFormat::Human), None);
}

#[test]
fn csv_lines_join_cells_with_commas() {
    let headers = vec!["collection".to_string(), "context".to_string(), "docid".to_string(), "file".to_string()];
    assert_eq!(csv_header(&headers), "collection,context,docid,file");
    assert_eq!(csv_header(&Vec::new()), "");
    let values = vec!["repo".to_string(), String::new(), "say \"hi\"".to_string()];
    assert_eq!(csv_row(&values), "\"repo\",\"\",\"say \"\"hi\"\"\"");
}

#[test]
fn xml_elements() {
    assert_eq!(xml_open("results"), "<results>");
    assert_eq!(xml_close("results"), "</results>");
    assert_eq!(xml_empty("context"), "<context />");
    assert_eq!(xml_leaf("title", "A & <B>"), "<title>A &amp; &lt;B&gt;</title>");
}

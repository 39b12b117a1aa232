use sifter::snippet::generate_snippet;

#[test]
fn snippet_marks_the_query() {
    assert_eq!(
        generate_snippet("Sifter should index retry budget design notes.", "retry").as_deref(),
        Some("Sifter should index [retry] budget design notes.")
    );
}

#[test]
fn snippet_matches_without_regard_to_case() {
    let content = "line one\nline two\nline three\nline four\nRetry budget";
    assert_eq!(generate_snippet(content, "retry").as_deref(), Some(content));
}

#[test]
fn snippet_is_a_window_around_the_match() {
    let content = format!("{} retry {}", "a".repeat(50), "b".repeat(100));
    let expected = format!("{} [retry] {}", "a".repeat(39), "b".repeat(79));
    assert_eq!(generate_snippet(&content, "retry"), Some(expected));
}

#[test]
fn snippet_without_a_match_is_the_first_four_lines() {
    assert_eq!(generate_snippet("a\nb\nc\nd\ne", "zzz").as_deref(), Some("a\nb\nc\nd"));
}

#[test]
fn snippet_window_inside_a_character_has_no_snippet() {
    let content = format!("a{} retry", "é".repeat(30));
    assert_eq!(generate_snippet(&content, "retry"), None);
}

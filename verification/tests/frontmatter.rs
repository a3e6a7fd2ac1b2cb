use sqs::frontmatter::{render_item_file, split_item_file, tags_from_text, tags_to_text};

#[test]
fn parse_rejects_missing_frontmatter() {
    let err = split_item_file("no frontmatter here").err().expect("should fail");
    assert_eq!(err.describe(), "missing frontmatter start delimiter");
}

#[test]
fn parse_rejects_missing_end_delimiter() {
    let err = split_item_file("---\ntitle: test\n").err().expect("should fail");
    assert_eq!(err.describe(), "missing frontmatter end delimiter");
}

#[test]
fn roundtrip_preserves_body() {
    let yaml = "title: Test task\nlist: now\n";
    let body = "# Test task\n\nSome content\n";
    let rendered = render_item_file(yaml, body);
    assert_eq!(rendered, "---\ntitle: Test task\nlist: now\n---\n# Test task\n\nSome content\n");
    let (parsed_yaml, parsed_body) = split_item_file(&rendered).expect("should split");
    assert_eq!(parsed_yaml, "\ntitle: Test task\nlist: now");
    assert_eq!(parsed_body, body);
}

#[test]
fn split_skips_leading_space_and_blank_lines_before_body() {
    let (yaml, body) = split_item_file("  \n---\na: 1\n---\n\n\nbody").expect("should split");
    assert_eq!(yaml, "\na: 1");
    assert_eq!(body, "body");
    let (_, empty) = split_item_file("---\na: 1\n---").expect("should split");
    assert_eq!(empty, "");
}

#[test]
fn tags_roundtrip_space_separated_string() {
    let tags = vec!["MIL010-foo".to_string(), "SCOPE-bar".to_string()];
    let text = tags_to_text(&tags);
    assert_eq!(text, "MIL010-foo SCOPE-bar");
    assert_eq!(tags_from_text(&text), tags);
}

#[test]
fn tags_split_on_any_white_space() {
    assert_eq!(tags_from_text("  a\tb \u{3000} c\n"), vec!["a", "b", "c"]);
    assert!(tags_from_text("   ").is_empty());
    assert_eq!(tags_to_text(&Vec::new()), "");
    for text in ["x  y", "\u{85}q\u{a0}r", " lead", "trail "] {
        let ours = tags_from_text(text);
        let std_words: Vec<&str> = text.split_whitespace().collect();
        assert_eq!(ours, std_words);
    }
}

#[test]
fn roundtrip_preserves_fields() {
    let yaml = "title: Test task\nlist: now\norder: 1024.0\n";
    let body = "# Test task\n\nSome content\n";
    let rendered = render_item_file(yaml, body);
    let (parsed_yaml, parsed_body) = split_item_file(&rendered).expect("should split");
    assert!(parsed_yaml.contains("title: Test task"));
    assert!(parsed_yaml.contains("list: now"));
    assert!(parsed_yaml.contains("order: 1024.0"));
    assert_eq!(parsed_body, body);
}

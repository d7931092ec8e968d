use ex_grapha_core::error::Error;
use ex_grapha_core::node_parser::{frame_node, split_frontmatter};

#[test]
fn missing_opening_delimiter() {
    let input = "id: foo\ntitle: bar\n";
    let err = split_frontmatter(input).unwrap_err();
    assert!(matches!(err, Error::MissingFrontmatter));
}

#[test]
fn missing_closing_delimiter() {
    let input = "---\nid: foo\ntitle: bar\n";
    let err = split_frontmatter(input).unwrap_err();
    assert!(matches!(err, Error::MissingFrontmatter));
}

#[test]
fn empty_content() {
    let input = "\
---
id: \"n-000000\"
title: \"Empty\"
type: \"axiom\"
tags: []
status: \"current\"
status_updated_at: \"2026-01-01T00:00:00Z\"
status_updated_by: \"test\"
created_at: \"2026-01-01T00:00:00Z\"
created_by: \"test\"
dependencies: []
---
";
    let (_yaml, content) = split_frontmatter(input).unwrap();
    assert_eq!(content, "");
}

#[test]
fn content_with_triple_dashes() {
    let input = "\
---
id: \"n-000000\"
title: \"Dashes\"
type: \"axiom\"
tags: []
status: \"current\"
status_updated_at: \"2026-01-01T00:00:00Z\"
status_updated_by: \"test\"
created_at: \"2026-01-01T00:00:00Z\"
created_by: \"test\"
dependencies: []
---

# Heading

---

Some text after a horizontal rule.
";
    let (yaml, content) = split_frontmatter(input).unwrap();
    assert!(content.contains("---"));
    assert!(content.contains("horizontal rule"));
    assert!(!yaml.contains("Heading"));
}

#[test]
fn bom_is_stripped() {
    let input = format!(
        "\u{feff}---\n\
         id: \"n-000000\"\n\
         title: \"BOM\"\n\
         type: \"axiom\"\n\
         tags: []\n\
         status: \"current\"\n\
         status_updated_at: \"2026-01-01T00:00:00Z\"\n\
         status_updated_by: \"test\"\n\
         created_at: \"2026-01-01T00:00:00Z\"\n\
         created_by: \"test\"\n\
         dependencies: []\n\
         ---\n\
         Content.\n"
    );
    let (yaml, content) = split_frontmatter(&input).unwrap();
    assert!(yaml.starts_with("id: \"n-000000\"\n"));
    assert_eq!(content, "Content.\n");
}

#[test]
fn split_gives_exact_parts() {
    let (yaml, content) = split_frontmatter("---\na: 1\n---\nbody\n").unwrap();
    assert_eq!(yaml, "a: 1\n");
    assert_eq!(content, "body\n");
}

#[test]
fn split_accepts_crlf_delimiters() {
    let (yaml, content) = split_frontmatter("---\r\na: 1\r\n---\r\nbody").unwrap();
    assert_eq!(yaml, "a: 1\r\n");
    assert_eq!(content, "body");
}

#[test]
fn closing_delimiter_at_end_of_file() {
    let (yaml, content) = split_frontmatter("---\na: 1\n---").unwrap();
    assert_eq!(yaml, "a: 1\n");
    assert_eq!(content, "");
}

#[test]
fn longer_dash_line_is_not_a_delimiter() {
    let (yaml, content) = split_frontmatter("---\na: 1\n----\nb: 2\n---\nrest").unwrap();
    assert_eq!(yaml, "a: 1\n----\nb: 2\n");
    assert_eq!(content, "rest");
}

#[test]
fn empty_frontmatter_block() {
    let (yaml, content) = split_frontmatter("---\n---\nbody").unwrap();
    assert_eq!(yaml, "");
    assert_eq!(content, "body");
}

#[test]
fn empty_input_has_no_frontmatter() {
    assert!(matches!(split_frontmatter("").unwrap_err(), Error::MissingFrontmatter));
    assert!(matches!(split_frontmatter("---").unwrap_err(), Error::MissingFrontmatter));
}

#[test]
fn frame_node_layout() {
    assert_eq!(frame_node("a: 1\n", "body"), "---\na: 1\n---\nbody");
}

#[test]
fn frame_then_split_round_trips() {
    let yaml = "id: n-000001\ntitle: Round trip\n";
    let content = "\n# Title\n\n---\n\ntext after a rule\n";
    let framed = frame_node(yaml, content);
    let (y, c) = split_frontmatter(&framed).unwrap();
    assert_eq!(y, yaml);
    assert_eq!(c, content);
}

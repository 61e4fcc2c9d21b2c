use note_parser::markdown::MarkdownEvent;
use note_parser::metadata::{Metadata, MetadataError, MetadataValue};
use note_parser::note::{Note, NoteError};
use note_parser::wikilink::Wikilink;

const EXAMPLE: &str = "---
published: true
category: \"Example\"
---

#example

Example content. With #test tag inside. Текст может содержать символы Юникода: #даже_в-тегах/hello42.

## Heading 2

[[Page Name|Link label]]

This is a [[WikiLink]]. And this is a [Markdown Link](https://example.com)

Inline `let a = 2 + 2;` example

#code/rust

```rust
fn main () {
    println!(\"ok\");
}
```
";

#[test]
fn test_parse_note() {
    let content = EXAMPLE;
    let note = Note::parse("Example", content).expect("note parse");

    let mut metadata = Metadata::new();
    metadata.insert("published".to_string(), MetadataValue::Boolean(true));
    metadata.insert(
        "category".to_string(),
        MetadataValue::String("Example".to_string()),
    );

    assert_eq!(
        note,
        Note {
            title: "Example".to_string(),
            content: r#"#example

Example content. With #test tag inside. Текст может содержать символы Юникода: #даже_в-тегах/hello42.

## Heading 2

[[Page Name|Link label]]

This is a [[WikiLink]]. And this is a [Markdown Link](https://example.com)

Inline `let a = 2 + 2;` example

#code/rust

```rust
fn main () {
    println!("ok");
}
```"#
                .to_string(),
            tags: vec![
                "example".to_string(),
                "test".to_string(),
                "даже_в-тегах/hello42".to_string(),
                "code/rust".to_string(),
            ],
            links: vec![
                Wikilink::new("Page Name", Some("Link label")),
                Wikilink::new("WikiLink", None),
            ],
            metadata,
        }
    );
}

#[test]
fn parse_without_header_keeps_document() {
    let note = Note::parse("Plain", "just #one line\n").expect("note parse");
    assert_eq!(note.title, "Plain");
    assert_eq!(note.content, "just #one line\n");
    assert_eq!(note.tags, vec!["one".to_string()]);
    assert!(note.links.is_empty());
    assert_eq!(note.metadata.len(), 0);
}

#[test]
fn parse_puts_header_tags_before_inline_tags() {
    let note = Note::parse("T", "---\ntags: [zeta, alpha]\n---\n#body and #alpha\n").expect("note parse");
    assert_eq!(
        note.tags,
        vec![
            "zeta".to_string(),
            "alpha".to_string(),
            "body".to_string(),
            "alpha".to_string(),
        ]
    );
    assert_eq!(note.content, "#body and #alpha");
}

#[test]
fn parse_reports_header_error() {
    let result = Note::parse("T", "---\nno separator here\n---\nbody\n");
    assert!(matches!(
        result,
        Err(NoteError::MetadataValueError(MetadataError::MalformedEntry))
    ));
    let result = Note::parse("T", "---\nkey:\n---\nbody\n");
    assert!(matches!(
        result,
        Err(NoteError::MetadataValueError(MetadataError::UnsupportedValue))
    ));
}

#[test]
fn parse_reads_text_inside_code_fences() {
    // The tokenizer hands the lines of a fenced block on as text, so what
    // looks like a tag or a link in there is read as one. The line is one
    // text run, and a run adds one link at most.
    let note = Note::parse("T", "before #out\n\n```\n#inside [[a]] [[b|c]]\n```\n").expect("note parse");
    assert_eq!(note.tags, vec!["out".to_string(), "inside".to_string()]);
    assert_eq!(note.links, vec![Wikilink::new("a", None)]);
}

#[test]
fn parse_finds_links_one_per_run() {
    // Outside code every bracket is a run of its own, so each link is
    // completed by a run of its own.
    let note = Note::parse("T", "[[a]] [[b|c]] and [[d]]\n").expect("note parse");
    assert_eq!(
        note.links,
        vec![
            Wikilink::new("a", None),
            Wikilink::new("b", Some("c")),
            Wikilink::new("d", None),
        ]
    );
}

#[test]
fn parse_skips_inline_code() {
    let note = Note::parse("T", "text `#nottag [[nolink]]` more #tag\n").expect("note parse");
    assert_eq!(note.tags, vec!["tag".to_string()]);
    assert!(note.links.is_empty());
}

#[test]
fn parse_does_not_join_tags_across_runs() {
    // Emphasis splits the text into runs; a tag ends with its run.
    let note = Note::parse("T", "#ab*cd*\n").expect("note parse");
    assert_eq!(note.tags, vec!["ab".to_string()]);
}

#[test]
fn parse_finds_link_spread_over_runs() {
    let note = Note::parse("T", "see [[Some *Page*|the label]] here\n").expect("note parse");
    assert_eq!(note.links, vec![Wikilink::new("Some Page", Some("the label"))]);
}

#[test]
fn parse_drops_unclosed_link() {
    let note = Note::parse("T", "an [[open link\n\nnext paragraph\n").expect("note parse");
    assert!(note.links.is_empty());
}

#[test]
fn assemble_from_given_events() {
    let mut metadata = Metadata::new();
    metadata.insert(
        "tags".to_string(),
        MetadataValue::List(vec!["declared".to_string()]),
    );
    let events = vec![
        MarkdownEvent::Other,
        MarkdownEvent::Text("[[".to_string()),
        MarkdownEvent::Other,
        MarkdownEvent::Text("Page #x".to_string()),
        MarkdownEvent::Text("]] #y".to_string()),
        MarkdownEvent::Other,
        MarkdownEvent::Text("[[Q|r]]".to_string()),
    ];
    let note = Note::assemble("title", "the body", metadata, &events);
    assert_eq!(note.title, "title");
    assert_eq!(note.content, "the body");
    assert_eq!(
        note.tags,
        vec!["declared".to_string(), "x".to_string(), "y".to_string()]
    );
    assert_eq!(
        note.links,
        vec![Wikilink::new("Page #x", None), Wikilink::new("Q", Some("r"))]
    );
    assert_eq!(note.metadata.len(), 1);
}

#[test]
fn assemble_adds_one_link_per_run() {
    let events = vec![
        MarkdownEvent::Text("[[A]] then [[B|b]] then [[C".to_string()),
        MarkdownEvent::Other,
        MarkdownEvent::Text("]] and [[D]]".to_string()),
        MarkdownEvent::Text("no link".to_string()),
    ];
    let note = Note::assemble("t", "b", Metadata::new(), &events);
    // The first run completes two links and reports the first; what it
    // leaves open is completed by the next run, which reports that one.
    assert_eq!(
        note.links,
        vec![Wikilink::new("A", None), Wikilink::new("C", None)]
    );
}

#[test]
fn assemble_without_events() {
    let note = Note::assemble("t", "", Metadata::new(), &Vec::new());
    assert!(note.tags.is_empty());
    assert!(note.links.is_empty());
    assert_eq!(note.content, "");
}

#[test]
fn render_html_of_body() {
    let note = Note::parse("T", "---\na: b\n---\n# Title\n\nSome *text*.\n").expect("note parse");
    assert_eq!(
        note.render_html(),
        "<h1>Title</h1>\n<p>Some <em>text</em>.</p>\n"
    );
}

#[test]
fn render_html_enables_extensions() {
    let note = Note::parse("T", "~~gone~~\n\n- [x] done\n").expect("note parse");
    let html = note.render_html();
    assert!(html.contains("<del>gone</del>"));
    assert!(html.contains("type=\"checkbox\""));
}

#[test]
fn render_html_twice_gives_same_text() {
    let note = Note::parse("Example", EXAMPLE).expect("note parse");
    let first = note.render_html();
    let second = note.render_html();
    assert_eq!(first, second);
    assert!(first.starts_with("<p>#example</p>\n"));
}

#[test]
fn from_file_without_name() {
    let result = Note::from_file(None, Ok("text".to_string()));
    assert!(matches!(result, Err(NoteError::NoFileName)));
    let failed = std::io::Error::new(std::io::ErrorKind::NotFound, "missing");
    let result = Note::from_file(None, Err(failed));
    assert!(matches!(result, Err(NoteError::NoFileName)));
}

#[test]
fn from_file_with_failed_read() {
    let failed = std::io::Error::new(std::io::ErrorKind::NotFound, "missing");
    match Note::from_file(Some("note"), Err(failed)) {
        Err(NoteError::IOError(e)) => assert_eq!(e.kind(), std::io::ErrorKind::NotFound),
        other => panic!("unexpected: {:?}", other),
    }
}

#[test]
fn from_file_with_contents() {
    let note = Note::from_file(Some("Example"), Ok(EXAMPLE.to_string())).expect("note");
    assert_eq!(note, Note::parse("Example", EXAMPLE).expect("note parse"));
    let result = Note::from_file(Some("bad"), Ok("---\n: x\n---\n".to_string()));
    assert!(matches!(
        result,
        Err(NoteError::MetadataValueError(MetadataError::MalformedEntry))
    ));
}

#[test]
fn note_error_messages() {
    let failed = std::io::Error::new(std::io::ErrorKind::Other, "x");
    assert_eq!(NoteError::IOError(failed).message(), "io error");
    assert_eq!(
        NoteError::MetadataValueError(MetadataError::MalformedEntry).message(),
        "frontmatter value error"
    );
    assert_eq!(NoteError::NoFileName.message(), "no file name");
}

#[test]
fn tags_come_from_header_where_body_has_no_marker() {
    let note = Note::parse("T", "---\ntags: [a, b]\n---\nplain body\n").expect("note parse");
    assert_eq!(note.tags, vec!["a".to_string(), "b".to_string()]);
    let note = Note::parse("T", "---\ntags: true\n---\nplain body\n").expect("note parse");
    assert!(note.tags.is_empty());
    let note = Note::parse("T", "---\nother: [a]\n---\nplain body\n").expect("note parse");
    assert!(note.tags.is_empty());
}

#[test]
fn header_entries_become_metadata() {
    let note = Note::parse("T", "---\npublished: true\ncategory: \"Example\"\n---\nbody\n").expect("note parse");
    assert_eq!(note.metadata.len(), 2);
    assert_eq!(note.metadata.get("published"), Some(&MetadataValue::Boolean(true)));
    assert_eq!(
        note.metadata.get("category"),
        Some(&MetadataValue::String("Example".to_string()))
    );
    assert_eq!(note.content, "body");
}

use note_parser::metadata::{parse_frontmatter, Metadata, MetadataError, MetadataValue};

fn text(s: &str) -> MetadataValue {
    MetadataValue::String(s.to_string())
}

fn list(items: &[&str]) -> MetadataValue {
    MetadataValue::List(items.iter().map(|s| s.to_string()).collect())
}

#[test]
fn document_without_header_is_unchanged() {
    for document in [
        "",
        "plain text",
        "# Title\n\nbody\n",
        "  ---\na: b\n---\n",
        "----\na: b\n---\n",
        "---",
        "---\n",
        "---\nnever closed\nkey: value\n",
        "text\n---\na: b\n---\n",
    ] {
        let (metadata, rest) = parse_frontmatter(document).expect("no header");
        assert_eq!(metadata.len(), 0);
        assert_eq!(rest, document);
    }
}

#[test]
fn header_is_stripped_from_body() {
    let (metadata, rest) = parse_frontmatter("---\ntitle: Hello\n---\n\n  body text \n\n").expect("header");
    assert_eq!(metadata.len(), 1);
    assert_eq!(metadata.get("title"), Some(&text("Hello")));
    assert_eq!(rest, "body text");
}

#[test]
fn header_may_end_the_document() {
    let (metadata, rest) = parse_frontmatter("---\na: 1\n---").expect("header");
    assert_eq!(metadata.get("a"), Some(&MetadataValue::Number(1)));
    assert_eq!(rest, "");
    let (metadata, rest) = parse_frontmatter("---\n---\nbody").expect("header");
    assert_eq!(metadata.len(), 0);
    assert_eq!(rest, "body");
}

#[test]
fn delimiter_may_carry_trailing_space() {
    let (metadata, rest) = parse_frontmatter("--- \r\nkey: value\r\n---\t\r\nbody\r\n").expect("header");
    assert_eq!(metadata.get("key"), Some(&text("value")));
    assert_eq!(rest, "body");
}

#[test]
fn boolean_literals() {
    let (metadata, _) = parse_frontmatter("---\npublished: true\ndraft: false\n---\n").expect("header");
    assert_eq!(metadata.get("published"), Some(&MetadataValue::Boolean(true)));
    assert_eq!(metadata.get("draft"), Some(&MetadataValue::Boolean(false)));
    assert!(metadata.tags().is_empty());
}

#[test]
fn boolean_look_alikes_are_strings() {
    let (metadata, _) = parse_frontmatter("---\na: True\nb: \"true\"\nc: truer\n---\n").expect("header");
    assert_eq!(metadata.get("a"), Some(&text("True")));
    assert_eq!(metadata.get("b"), Some(&text("true")));
    assert_eq!(metadata.get("c"), Some(&text("truer")));
}

#[test]
fn string_scalars() {
    let (metadata, _) = parse_frontmatter(
        "---\ncategory: \"Example\"\nplain: some words here\nsingle: 'it is'\nurl: http://example.com/a\n---\n",
    )
    .expect("header");
    assert_eq!(metadata.get("category"), Some(&text("Example")));
    assert_eq!(metadata.get("plain"), Some(&text("some words here")));
    assert_eq!(metadata.get("single"), Some(&text("it is")));
    assert_eq!(metadata.get("url"), Some(&text("http://example.com/a")));
    assert_eq!(metadata.get("missing"), None);
}

#[test]
fn quoted_scalar_keeps_inner_space_and_other_quote() {
    let (metadata, _) = parse_frontmatter("---\na: \"  x 'y' \"\nb: \"\"\n---\n").expect("header");
    assert_eq!(metadata.get("a"), Some(&text("  x 'y' ")));
    assert_eq!(metadata.get("b"), Some(&text("")));
}

#[test]
fn number_literals() {
    let (metadata, _) = parse_frontmatter(
        "---\na: 42\nb: -7\nc: 007\nd: 9223372036854775807\ne: -9223372036854775808\nf: 0\n---\n",
    )
    .expect("header");
    assert_eq!(metadata.get("a"), Some(&MetadataValue::Number(42)));
    assert_eq!(metadata.get("b"), Some(&MetadataValue::Number(-7)));
    assert_eq!(metadata.get("c"), Some(&MetadataValue::Number(7)));
    assert_eq!(metadata.get("d"), Some(&MetadataValue::Number(i64::MAX)));
    assert_eq!(metadata.get("e"), Some(&MetadataValue::Number(i64::MIN)));
    assert_eq!(metadata.get("f"), Some(&MetadataValue::Number(0)));
}

#[test]
fn number_look_alikes_are_strings() {
    let (metadata, _) = parse_frontmatter(
        "---\na: 9223372036854775808\nb: -9223372036854775809\nc: 1.5\nd: -\ne: 12a\nf: +3\ng: 99999999999999999999999999999999999999999\n---\n",
    )
    .expect("header");
    assert_eq!(metadata.get("a"), Some(&text("9223372036854775808")));
    assert_eq!(metadata.get("b"), Some(&text("-9223372036854775809")));
    assert_eq!(metadata.get("c"), Some(&text("1.5")));
    assert_eq!(metadata.get("d"), Some(&text("-")));
    assert_eq!(metadata.get("e"), Some(&text("12a")));
    assert_eq!(metadata.get("f"), Some(&text("+3")));
    assert_eq!(
        metadata.get("g"),
        Some(&text("99999999999999999999999999999999999999999"))
    );
}

#[test]
fn flow_lists() {
    let (metadata, _) = parse_frontmatter(
        "---\ntags: [one, \"two\", 'three four' ,five]\nempty: []\nblank: [  ]\nsingle: [x]\ntyped: [true, 1]\n---\n",
    )
    .expect("header");
    assert_eq!(
        metadata.get("tags"),
        Some(&list(&["one", "two", "three four", "five"]))
    );
    assert_eq!(metadata.get("empty"), Some(&list(&[])));
    assert_eq!(metadata.get("blank"), Some(&list(&[])));
    assert_eq!(metadata.get("single"), Some(&list(&["x"])));
    assert_eq!(metadata.get("typed"), Some(&list(&["true", "1"])));
    assert_eq!(
        metadata.tags(),
        vec![
            "one".to_string(),
            "two".to_string(),
            "three four".to_string(),
            "five".to_string()
        ]
    );
}

#[test]
fn tags_of_wrong_shape_are_empty() {
    let (metadata, _) = parse_frontmatter("---\ntags: one\n---\n").expect("header");
    assert_eq!(metadata.get("tags"), Some(&text("one")));
    assert!(metadata.tags().is_empty());
    let (metadata, _) = parse_frontmatter("---\ntags: true\n---\n").expect("header");
    assert!(metadata.tags().is_empty());
    let (metadata, _) = parse_frontmatter("---\nTags: [a]\n---\n").expect("header");
    assert!(metadata.tags().is_empty());
    assert!(Metadata::new().tags().is_empty());
}

#[test]
fn blank_lines_and_comments_are_skipped() {
    let (metadata, rest) = parse_frontmatter("---\n\n# a comment\n   \nkey: value\n  # another\n---\nbody").expect("header");
    assert_eq!(metadata.len(), 1);
    assert_eq!(metadata.get("key"), Some(&text("value")));
    assert_eq!(rest, "body");
}

#[test]
fn later_entry_replaces_earlier() {
    let (metadata, _) = parse_frontmatter("---\nkey: first\nother: x\nkey: second\n---\n").expect("header");
    assert_eq!(metadata.len(), 2);
    assert_eq!(metadata.get("key"), Some(&text("second")));
    assert_eq!(metadata.get("other"), Some(&text("x")));
}

#[test]
fn keys_are_trimmed() {
    let (metadata, _) = parse_frontmatter("---\n  spaced key  :   value  \n---\n").expect("header");
    assert_eq!(metadata.get("spaced key"), Some(&text("value")));
}

#[test]
fn malformed_entries() {
    for document in [
        "---\nno separator\n---\n",
        "---\n: value\n---\n",
        "---\n   : value\n---\n",
        "---\ngood: 1\n- item\n---\n",
    ] {
        assert_eq!(
            parse_frontmatter(document).err(),
            Some(MetadataError::MalformedEntry)
        );
    }
}

#[test]
fn unsupported_values() {
    for document in [
        "---\nkey:\n---\n",
        "---\nkey:    \n---\n",
        "---\nkey: \"open\n---\n",
        "---\nkey: 'a'b'\n---\n",
        "---\nkey: \"\n---\n",
        "---\nkey: [a, b\n---\n",
        "---\nkey: [a, , b]\n---\n",
        "---\nkey: [a, b,]\n---\n",
        "---\nkey: [a, [b]]\n---\n",
        "---\nkey: [\"a, b\"]\n---\n",
        "---\nkey: {a: b}\n---\n",
    ] {
        assert_eq!(
            parse_frontmatter(document).err(),
            Some(MetadataError::UnsupportedValue)
        );
    }
}

#[test]
fn first_bad_line_decides_the_error() {
    assert_eq!(
        parse_frontmatter("---\na:\nno separator\n---\n").err(),
        Some(MetadataError::UnsupportedValue)
    );
    assert_eq!(
        parse_frontmatter("---\nno separator\na:\n---\n").err(),
        Some(MetadataError::MalformedEntry)
    );
}

#[test]
fn bad_lines_without_closing_delimiter_are_no_header() {
    let document = "---\nno separator\n";
    let (metadata, rest) = parse_frontmatter(document).expect("no header");
    assert_eq!(metadata.len(), 0);
    assert_eq!(rest, document);
}

#[test]
fn body_keeps_later_delimiters() {
    let (_, rest) = parse_frontmatter("---\na: b\n---\nfirst\n---\nsecond\n").expect("header");
    assert_eq!(rest, "first\n---\nsecond");
}

#[test]
fn metadata_insert_and_get() {
    let mut metadata = Metadata::new();
    assert_eq!(metadata.len(), 0);
    assert_eq!(metadata.get("a"), None);
    metadata.insert("a".to_string(), MetadataValue::Number(1));
    metadata.insert("b".to_string(), text("x"));
    assert_eq!(metadata.len(), 2);
    metadata.insert("a".to_string(), MetadataValue::Boolean(false));
    assert_eq!(metadata.len(), 2);
    assert_eq!(metadata.get("a"), Some(&MetadataValue::Boolean(false)));
    assert_eq!(metadata.get("b"), Some(&text("x")));
    assert_eq!(metadata.get("c"), None);
}

#[test]
fn metadata_equality_ignores_insertion_order() {
    let mut first = Metadata::new();
    first.insert("a".to_string(), MetadataValue::Number(1));
    first.insert("b".to_string(), list(&["x", "y"]));
    let mut second = Metadata::new();
    second.insert("b".to_string(), list(&["x", "y"]));
    second.insert("a".to_string(), MetadataValue::Number(1));
    assert_eq!(first, second);

    let mut third = Metadata::new();
    third.insert("a".to_string(), MetadataValue::Number(1));
    assert_ne!(first, third);
    third.insert("b".to_string(), list(&["y", "x"]));
    assert_ne!(first, third);
    third.insert("b".to_string(), list(&["x", "y"]));
    assert_eq!(first, third);
    third.insert("c".to_string(), text("1"));
    assert_ne!(first, third);
    assert_ne!(MetadataValue::Number(1), text("1"));
    assert_ne!(MetadataValue::Boolean(true), text("true"));
}

#[test]
fn canonical_literals_read_back() {
    let cases: Vec<(&str, MetadataValue)> = vec![
        ("true", MetadataValue::Boolean(true)),
        ("false", MetadataValue::Boolean(false)),
        ("0", MetadataValue::Number(0)),
        ("1234567890", MetadataValue::Number(1234567890)),
        ("-15", MetadataValue::Number(-15)),
        ("\"\"", text("")),
        ("\"plain text\"", text("plain text")),
        ("\"true\"", text("true")),
        ("\"12\"", text("12")),
        ("\"[x]\"", text("[x]")),
        ("\" padded \"", text(" padded ")),
        ("[]", list(&[])),
        ("[\"a\"]", list(&["a"])),
        ("[\"a\",\"b c\",\"\"]", list(&["a", "b c", ""])),
    ];
    for (literal, value) in cases {
        let document = format!("---\nkey: {}\n---\n", literal);
        let (metadata, _) = parse_frontmatter(&document).expect("header");
        assert_eq!(metadata.get("key"), Some(&value));
    }
}

#[test]
fn error_messages() {
    assert_eq!(MetadataError::MalformedEntry.message(), "malformed frontmatter entry");
    assert_eq!(MetadataError::UnsupportedValue.message(), "unsupported frontmatter value");
}

#[test]
fn keys_of_metadata() {
    let (metadata, _) = parse_frontmatter("---\nb: 1\na: 2\nb: 3\n---\n").expect("header");
    let mut keys = metadata.keys();
    keys.sort();
    assert_eq!(keys, vec!["a".to_string(), "b".to_string()]);
    assert!(Metadata::new().keys().is_empty());
}

#[test]
fn written_header_reads_back() {
    let document = "---\npublished: true\ncategory: \"Example\"\ncount: -3\ntags: [\"a\",\"b\"]\n---\n\n body \n";
    let (metadata, rest) = parse_frontmatter(document).expect("header");
    assert_eq!(metadata.len(), 4);
    assert_eq!(metadata.get("published"), Some(&MetadataValue::Boolean(true)));
    assert_eq!(metadata.get("category"), Some(&text("Example")));
    assert_eq!(metadata.get("count"), Some(&MetadataValue::Number(-3)));
    assert_eq!(metadata.get("tags"), Some(&list(&["a", "b"])));
    assert_eq!(metadata.get("other"), None);
    assert_eq!(rest, "body");
}

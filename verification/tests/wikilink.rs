use note_parser::wikilink::{Wikilink, WikilinkParser};

#[test]
fn link_with_label_in_one_call() {
    let mut parser = WikilinkParser::new();
    assert_eq!(
        parser.feed("[[Page Name|Link label]]"),
        Some(Wikilink {
            target: "Page Name".to_string(),
            label: Some("Link label".to_string()),
        })
    );
}

#[test]
fn link_without_label_in_one_call() {
    let mut parser = WikilinkParser::new();
    assert_eq!(
        parser.feed("[[WikiLink]]"),
        Some(Wikilink {
            target: "WikiLink".to_string(),
            label: None,
        })
    );
}

#[test]
fn link_split_over_two_calls() {
    let mut whole = WikilinkParser::new();
    let expected = whole.feed("[[Page]]");
    assert_eq!(expected, Some(Wikilink::new("Page", None)));

    let mut parser = WikilinkParser::new();
    assert_eq!(parser.feed("[["), None);
    assert_eq!(parser.feed("Page]]"), expected);
}

#[test]
fn link_split_at_every_position() {
    let text = "x [[Page Name|Link label]] y";
    let mut whole = WikilinkParser::new();
    let expected = whole.feed_all(text);
    assert_eq!(expected, vec![Wikilink::new("Page Name", Some("Link label"))]);
    for (at, _) in text.char_indices() {
        let mut parser = WikilinkParser::new();
        let mut found = parser.feed_all(&text[..at]);
        found.extend(parser.feed_all(&text[at..]));
        assert_eq!(found, expected);
    }
}

#[test]
fn link_fed_one_character_at_a_time() {
    let mut parser = WikilinkParser::new();
    let mut found = Vec::new();
    for c in "a[[T|l]]b[[U]]".chars() {
        if let Some(link) = parser.feed(&c.to_string()) {
            found.push(link);
        }
    }
    assert_eq!(
        found,
        vec![Wikilink::new("T", Some("l")), Wikilink::new("U", None)]
    );
}

#[test]
fn unclosed_link_is_never_reported() {
    let mut parser = WikilinkParser::new();
    assert_eq!(parser.feed("[[dangling"), None);
    assert_eq!(parser.feed(""), None);
}

#[test]
fn unclosed_link_closes_later() {
    let mut parser = WikilinkParser::new();
    assert_eq!(parser.feed("[[dangling"), None);
    assert_eq!(parser.feed(" still"), None);
    assert_eq!(parser.feed("]"), None);
    assert_eq!(parser.feed("]"), Some(Wikilink::new("dangling still", None)));
}

#[test]
fn links_in_sequence_do_not_mix() {
    let mut parser = WikilinkParser::new();
    assert_eq!(parser.feed("[[A|one]] then"), Some(Wikilink::new("A", Some("one"))));
    assert_eq!(parser.feed(" [[B]]"), Some(Wikilink::new("B", None)));
    assert_eq!(parser.feed("nothing"), None);
    assert_eq!(parser.feed("[[C"), None);
    assert_eq!(parser.feed("|three]]"), Some(Wikilink::new("C", Some("three"))));
}

#[test]
fn several_links_in_one_piece() {
    let mut parser = WikilinkParser::new();
    assert_eq!(
        parser.feed_all("[[A]] and [[B|b]] and [[C"),
        vec![Wikilink::new("A", None), Wikilink::new("B", Some("b"))]
    );
    assert_eq!(parser.feed_all("]]"), vec![Wikilink::new("C", None)]);

    let mut parser = WikilinkParser::new();
    assert_eq!(parser.feed("[[A]] and [[B]] and [[C"), Some(Wikilink::new("A", None)));
    assert_eq!(parser.feed("]]"), Some(Wikilink::new("C", None)));
}

#[test]
fn single_brackets_are_no_link() {
    let mut parser = WikilinkParser::new();
    assert_eq!(parser.feed("[a] [b]] ]] [ [c]]"), None);
    assert_eq!(parser.feed("[[d]]"), Some(Wikilink::new("d", None)));
}

#[test]
fn brackets_and_bars_inside_a_link() {
    let mut parser = WikilinkParser::new();
    assert_eq!(parser.feed("[[a]b]]"), Some(Wikilink::new("a]b", None)));
    assert_eq!(parser.feed("[[[x]]"), Some(Wikilink::new("[x", None)));
    assert_eq!(parser.feed("[[t|l|m]]"), Some(Wikilink::new("t", Some("l|m"))));
    assert_eq!(parser.feed("[[|only label]]"), Some(Wikilink::new("", Some("only label"))));
    assert_eq!(parser.feed("[[]]"), Some(Wikilink::new("", None)));
    assert_eq!(parser.feed("[[a]]]"), Some(Wikilink::new("a", None)));
}

#[test]
fn new_link_holds_its_parts() {
    let link = Wikilink::new("Target", Some("Label"));
    assert_eq!(link.target, "Target");
    assert_eq!(link.label, Some("Label".to_string()));
    assert_ne!(link, Wikilink::new("target", Some("Label")));
    assert_ne!(link, Wikilink::new("Target", None));
}

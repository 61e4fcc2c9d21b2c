use note_parser::note::collect_tags;

fn strings(items: &[&str]) -> Vec<String> {
    items.iter().map(|s| s.to_string()).collect()
}

#[test]
fn tags_with_unicode_and_punctuation() {
    assert_eq!(
        collect_tags("#example text #test more #даже_в-тегах/hello42"),
        strings(&["example", "test", "даже_в-тегах/hello42"])
    );
}

#[test]
fn tags_absent() {
    assert_eq!(collect_tags("no tags here"), Vec::<String>::new());
    assert_eq!(collect_tags(""), Vec::<String>::new());
}

#[test]
fn tag_at_end_of_text() {
    assert_eq!(collect_tags("trailing #tag"), strings(&["tag"]));
}

#[test]
fn bare_marker_gives_no_tag() {
    assert_eq!(collect_tags("# heading"), Vec::<String>::new());
    assert_eq!(collect_tags("a # b #"), Vec::<String>::new());
    assert_eq!(collect_tags("#!wow"), Vec::<String>::new());
}

#[test]
fn marker_restarts_a_tag() {
    assert_eq!(collect_tags("#a#b"), strings(&["a", "b"]));
    assert_eq!(collect_tags("##x"), strings(&["x"]));
    assert_eq!(collect_tags("#a##b #"), strings(&["a", "b"]));
}

#[test]
fn tag_ends_at_other_characters() {
    assert_eq!(collect_tags("#one,#two.#three four"), strings(&["one", "two", "three"]));
    assert_eq!(collect_tags("(#in) #x!y"), strings(&["in", "x"]));
}

#[test]
fn tag_may_begin_with_digit_or_punctuation() {
    assert_eq!(collect_tags("#42 #-x #/a/b #_"), strings(&["42", "-x", "/a/b", "_"]));
}

#[test]
fn tag_after_text_without_space() {
    assert_eq!(collect_tags("word#tag"), strings(&["tag"]));
}

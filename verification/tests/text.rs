use note_parser::text::{chars_of, find_char, skip_spaces, skip_spaces_back, string_of, trim_range};

#[test]
fn chars_and_back() {
    let v = chars_of("añ→z");
    assert_eq!(v, vec!['a', 'ñ', '→', 'z']);
    assert_eq!(string_of(&v, 0, 4), "añ→z");
    assert_eq!(string_of(&v, 1, 3), "ñ→");
    assert_eq!(string_of(&v, 2, 2), "");
}

#[test]
fn trimming_ranges() {
    let v = chars_of(" \t a b \r\n");
    assert_eq!(skip_spaces(&v, 0, v.len()), 3);
    assert_eq!(skip_spaces_back(&v, 0, v.len()), 6);
    assert_eq!(trim_range(&v, 0, v.len()), (3, 6));
    assert_eq!(trim_range(&v, 0, 3), (3, 3));
    assert_eq!(trim_range(&v, 4, 5), (5, 5));
}

#[test]
fn finding_characters() {
    let v = chars_of("key: value: more");
    assert_eq!(find_char(&v, 0, v.len(), ':'), 3);
    assert_eq!(find_char(&v, 4, v.len(), ':'), 10);
    assert_eq!(find_char(&v, 11, v.len(), ':'), v.len());
    assert_eq!(find_char(&v, 0, 3, ':'), 3);
}

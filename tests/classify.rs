use org::get_heading;

#[test]
fn test_get_heading() {
    assert_eq!(get_heading(""), (String::from(""), 0));
    assert_eq!(get_heading("Test"), (String::from("Test"), 0));
    assert_eq!(get_heading("* Test"), (String::from("Test"), 1));
    assert_eq!(get_heading("***Test"), (String::from("Test"), 3));
    assert_eq!(get_heading("*****"), (String::new(), 5));
}

#[test]
fn heading_title_is_trimmed_of_unicode_whitespace() {
    assert_eq!(get_heading("**\t Title \u{a0}\u{3000}"), (String::from("Title"), 2));
    assert_eq!(get_heading("*  two  words  "), (String::from("two  words"), 1));
}

#[test]
fn markers_after_text_do_not_count() {
    assert_eq!(get_heading(" * not a heading"), (String::from("* not a heading"), 0));
    assert_eq!(get_heading("a*"), (String::from("a*"), 0));
}

#[test]
fn marker_only_with_spaces_has_empty_title() {
    assert_eq!(get_heading("***   "), (String::new(), 3));
}

#[test]
fn non_ascii_title_is_kept() {
    assert_eq!(get_heading("* Überschrift ✓"), (String::from("Überschrift ✓"), 1));
}

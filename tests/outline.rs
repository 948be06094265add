use org::Org;

fn lines(v: &[&str]) -> Vec<String> {
    v.iter().map(|s| s.to_string()).collect()
}

#[test]
fn example_document_parses_to_expected_tree() {
    let input = lines(&["Intro line", "* A", "content under A", "** A1", "* B"]);
    let org = Org::from_vec(&input).unwrap();
    assert_eq!(org.depth(), 0);
    assert_eq!(org.heading(), "");
    assert_eq!(org.content_as_ref(), &lines(&["Intro line"]));
    let subs = org.subtrees_as_ref();
    assert_eq!(subs.len(), 2);
    assert_eq!(subs[0].heading(), "A");
    assert_eq!(subs[0].depth(), 1);
    assert_eq!(subs[0].content_as_ref(), &lines(&["content under A"]));
    assert_eq!(subs[0].subtrees_as_ref().len(), 1);
    let a1 = &subs[0].subtrees_as_ref()[0];
    assert_eq!(a1.heading(), "A1");
    assert_eq!(a1.depth(), 2);
    assert!(a1.content_as_ref().is_empty());
    assert!(a1.subtrees_as_ref().is_empty());
    assert_eq!(subs[1].heading(), "B");
    assert_eq!(subs[1].depth(), 1);
    assert!(subs[1].content_as_ref().is_empty());
    assert!(subs[1].subtrees_as_ref().is_empty());
}

#[test]
fn empty_input_parses_to_empty_root() {
    let org = Org::from_vec(&[]).unwrap();
    assert_eq!(org.depth(), 0);
    assert!(org.content_as_ref().is_empty());
    assert!(org.subtrees_as_ref().is_empty());
    assert!(org.to_vec().is_empty());
    assert_eq!(org.to_string(), "");
}

#[test]
fn sequential_document_round_trips() {
    let input = lines(&[
        "#+TITLE: notes",
        "* One",
        "text",
        "** Two",
        "*** Three",
        "deep text",
        "** Four",
        "* Five",
        "",
        "last",
    ]);
    let org = Org::from_vec(&input).unwrap();
    assert_eq!(org.to_vec(), input);
}

#[test]
fn depth_skip_is_normalized() {
    let input = lines(&["* A", "*** C", "under C", "** D"]);
    let org = Org::from_vec(&input).unwrap();
    let a = &org.subtrees_as_ref()[0];
    assert_eq!(a.subtrees_as_ref().len(), 2);
    assert_eq!(a.subtrees_as_ref()[0].depth(), 2);
    assert_eq!(a.subtrees_as_ref()[0].heading(), "C");
    assert_eq!(org.to_vec(), lines(&["* A", "** C", "under C", "** D"]));
}

#[test]
fn reparsing_rendered_output_gives_same_tree() {
    let input = lines(&["pre", "**   B  ", "x", "* A", "****", "y", "** Z", "*Q"]);
    let first = Org::from_vec(&input).unwrap();
    let rendered = first.to_vec();
    assert_eq!(rendered, lines(&["pre", "* B", "x", "* A", "** ", "y", "** Z", "* Q"]));
    let second = Org::from_vec(&rendered).unwrap();
    assert_eq!(second, first);
    assert_eq!(second.to_vec(), rendered);
    assert_eq!(second.to_string(), first.to_string());
}

#[test]
fn display_string_splits_back_into_rendered_lines() {
    let input = lines(&["top", "* A", "a", "** B", "* C", "c"]);
    let org = Org::from_vec(&input).unwrap();
    let text = org.to_string();
    assert_eq!(text, "top\n* A\na\n** B\n* C\nc");
    let split: Vec<String> = text.split('\n').map(|s| s.to_string()).collect();
    assert_eq!(split, org.to_vec());
}

#[test]
fn content_between_siblings_goes_to_preceding_heading() {
    let input = lines(&["* A", "** A1", "after A1", "** A2", "after A2", "* B", "after B"]);
    let org = Org::from_vec(&input).unwrap();
    let a = &org.subtrees_as_ref()[0];
    assert!(a.content_as_ref().is_empty());
    assert_eq!(a.subtrees_as_ref()[0].content_as_ref(), &lines(&["after A1"]));
    assert_eq!(a.subtrees_as_ref()[1].content_as_ref(), &lines(&["after A2"]));
    assert_eq!(org.subtrees_as_ref()[1].content_as_ref(), &lines(&["after B"]));
    assert!(org.content_as_ref().is_empty());
}

#[test]
fn full_heading_repeats_markers() {
    let org = Org::from_vec(&lines(&["* A", "** B", "***"])).unwrap();
    assert_eq!(org.full_heading(), "");
    let a = &org.subtrees_as_ref()[0];
    assert_eq!(a.full_heading(), "* A");
    assert_eq!(a.subtrees_as_ref()[0].full_heading(), "** B");
    assert_eq!(a.subtrees_as_ref()[0].subtrees_as_ref()[0].full_heading(), "*** ");
}

#[test]
fn accessors_change_the_tree() {
    let mut org = Org::new();
    org.content_as_mut().push(String::from("first"));
    let mut child = Org::from_vec(&lines(&["* old", "body"])).unwrap().subtrees_as_ref()[0].clone();
    child.set_heading("new");
    assert_eq!(child.heading(), "new");
    org.subtrees_as_mut().push(child);
    assert_eq!(org.to_vec(), lines(&["first", "* new", "body"]));
    assert_eq!(org.to_string(), "first\n* new\nbody");
}

#[test]
fn default_is_empty_root() {
    let org = Org::default();
    assert_eq!(org.depth(), 0);
    assert_eq!(org.heading(), "");
    assert!(org.to_vec().is_empty());
}

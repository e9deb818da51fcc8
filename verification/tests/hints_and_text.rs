use chordsheet::hints::{get_editing_hints, EditingHint};
use chordsheet::model::{Options, TextNode};
use chordsheet::strutil::{contains_chorus, join_with, replace_all, split_str, str_all_space};

fn text(s: &str) -> TextNode {
    TextNode::Text(s.to_string())
}

fn chord(s: &str) -> TextNode {
    TextNode::Chord(s.to_string())
}

fn node(n: TextNode) -> EditingHint {
    EditingHint::Node(n)
}

fn place() -> EditingHint {
    EditingHint::PossibleChordPlace
}

#[test]
fn hints_for_two_words() {
    let hints = get_editing_hints(vec![text("hi there")]);
    assert_eq!(
        hints,
        vec![
            place(),
            node(text("hi")),
            place(),
            node(text(" ")),
            place(),
            node(text("there")),
            place()
        ]
    );
}

#[test]
fn hints_around_chords() {
    let hints = get_editing_hints(vec![chord("C"), text(" x")]);
    assert_eq!(
        hints,
        vec![
            place(),
            node(chord("C")),
            place(),
            node(text(" ")),
            place(),
            node(text("x")),
            place()
        ]
    );
}

#[test]
fn hints_collapse_adjacent_spaces() {
    let hints = get_editing_hints(vec![text(" ")]);
    assert_eq!(hints, vec![node(text(" "))]);
}

#[test]
fn hints_pass_labels_and_newlines_through() {
    let hints = get_editing_hints(vec![
        TextNode::Label("Chorus".to_string()),
        TextNode::Newline,
    ]);
    assert_eq!(
        hints,
        vec![
            node(TextNode::Label("Chorus".to_string())),
            node(TextNode::Newline)
        ]
    );
}

#[test]
fn chorus_detection_is_case_insensitive_substring() {
    assert!(contains_chorus("CHORUS:"));
    assert!(contains_chorus("Pre-chorus"));
    assert!(contains_chorus("chOrUs 2"));
    assert!(!contains_chorus("Bridge"));
    assert!(!contains_chorus("chor us"));
}

#[test]
fn default_options_marker() {
    assert_eq!(Options::default().chorus_label, "\u{ae}:");
}

#[test]
fn replace_scans_left_to_right() {
    assert_eq!(replace_all("aaa", "aa", "b"), "ba");
    assert_eq!(replace_all("x\r\ny", "\r\n", "\n"), "x\ny");
    assert_eq!(replace_all("none", "zz", "y"), "none");
}

#[test]
fn split_and_join_are_inverse_here() {
    let parts = split_str("a,b,,c", ",");
    assert_eq!(parts, vec!["a", "b", "", "c"]);
    assert_eq!(join_with(&parts, ","), "a,b,,c");
}

#[test]
fn whitespace_test_covers_tabs() {
    assert!(str_all_space(" \t "));
    assert!(str_all_space(""));
    assert!(!str_all_space(" x "));
}

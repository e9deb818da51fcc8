use chordsheet::align::{closest_boundary, word_boundaries, Appendable};
use chordsheet::model::TextNode;

fn text(s: &str) -> TextNode {
    TextNode::Text(s.to_string())
}

fn chord(s: &str) -> TextNode {
    TextNode::Chord(s.to_string())
}

#[test]
fn boundaries_of_two_words() {
    assert_eq!(word_boundaries("hello world"), vec![0, 5, 6, 11]);
}

#[test]
fn boundaries_with_double_space() {
    assert_eq!(word_boundaries("a  b"), vec![0, 1, 2, 3, 4]);
}

#[test]
fn boundaries_of_empty_text() {
    assert_eq!(word_boundaries(""), vec![0]);
}

#[test]
fn closest_prefers_nearer_boundary() {
    assert_eq!(closest_boundary(&vec![0, 5, 10], 7), 5);
}

#[test]
fn closest_tie_takes_lower_boundary() {
    assert_eq!(closest_boundary(&vec![0, 4, 10], 7), 4);
}

#[test]
fn closest_exact_hit() {
    assert_eq!(closest_boundary(&vec![0, 5, 10], 10), 10);
}

#[test]
fn push_chord_splits_inside_word() {
    let mut line = vec![text("hello world")];
    line.push_chord(6, chord("C"));
    assert_eq!(line, vec![text("hello "), chord("C"), text("world")]);
}

#[test]
fn push_chord_at_word_end_skips_whitespace() {
    let mut line = vec![text("hello "), text("world")];
    line.push_chord(5, chord("C"));
    assert_eq!(line, vec![text("hello "), chord("C"), text("world")]);
}

#[test]
fn push_chord_twice_keeps_insertion_order() {
    let mut line = vec![text("hello "), text("world")];
    line.push_chord(5, chord("C"));
    line.push_chord(5, chord("G"));
    assert_eq!(
        line,
        vec![text("hello "), chord("C"), chord("G"), text("world")]
    );
}

#[test]
fn push_chord_past_text_changes_nothing() {
    let mut line = vec![text("hi")];
    line.push_chord(10, chord("C"));
    assert_eq!(line, vec![text("hi")]);
}

#[test]
fn push_chord_appends_at_line_end() {
    let mut line = vec![text("hi ")];
    line.push_chord(2, chord("C"));
    assert_eq!(line, vec![text("hi "), chord("C")]);
}

use chordsheet::model::TextNode;
use chordsheet::parse::{parse_bracket, parse_inline, GrammarRule};

fn text(s: &str) -> TextNode {
    TextNode::Text(s.to_string())
}

fn chord(s: &str) -> TextNode {
    TextNode::Chord(s.to_string())
}

fn label(s: &str) -> TextNode {
    TextNode::Label(s.to_string())
}

#[test]
fn inline_plain_text_lines() {
    let nodes = parse_inline("hello world\nsecond line\n").unwrap();
    assert_eq!(
        nodes,
        vec![
            text("hello world"),
            TextNode::Newline,
            text("second line"),
            TextNode::Newline
        ]
    );
}

#[test]
fn inline_plain_reconstructs_original() {
    let input = "one two\n\nthree\n";
    let nodes = parse_inline(input).unwrap();
    let mut rebuilt = String::new();
    for node in &nodes {
        match node {
            TextNode::Text(t) => rebuilt.push_str(t),
            TextNode::Newline => rebuilt.push('\n'),
            _ => panic!("plain input must parse to text and newlines only"),
        }
    }
    assert_eq!(rebuilt, input);
}

#[test]
fn inline_chord_span() {
    let nodes = parse_inline("[C]Hello[G] world\n").unwrap();
    assert_eq!(
        nodes,
        vec![
            chord("C"),
            text("Hello"),
            chord("G"),
            text(" world"),
            TextNode::Newline
        ]
    );
}

#[test]
fn inline_comma_list_explodes() {
    let nodes = parse_inline("[C, G]").unwrap();
    assert_eq!(nodes, vec![chord("C"), text(" "), chord("G")]);
}

#[test]
fn inline_comma_without_space_stays_one_chord() {
    let nodes = parse_inline("[C,G]").unwrap();
    assert_eq!(nodes, vec![chord("C,G")]);
}

#[test]
fn inline_unterminated_span_fails() {
    let err = parse_inline("ab[cd").unwrap_err();
    assert_eq!(err.rule, GrammarRule::ChordRule);
    assert_eq!(err.rest, "[cd");
}

#[test]
fn inline_empty_span_fails() {
    let err = parse_inline("[]x").unwrap_err();
    assert_eq!(err.rule, GrammarRule::ChordRule);
    assert_eq!(err.rest, "[]x");
}

#[test]
fn inline_stray_close_fails() {
    let err = parse_inline("ab]cd").unwrap_err();
    assert_eq!(err.rule, GrammarRule::TextRule);
    assert_eq!(err.rest, "]cd");
}

#[test]
fn inline_empty_input_is_empty() {
    assert_eq!(parse_inline("").unwrap(), Vec::<TextNode>::new());
}

#[test]
fn bracket_chord_and_label() {
    let nodes = parse_bracket("[Verse 1]\n[ch]Am[/ch]pain\n").unwrap();
    assert_eq!(
        nodes,
        vec![
            label("Verse 1"),
            TextNode::Newline,
            chord("Am"),
            text("pain"),
            TextNode::Newline
        ]
    );
}

#[test]
fn bracket_unterminated_chord_fails() {
    let err = parse_bracket("[ch]Am").unwrap_err();
    assert_eq!(err.rule, GrammarRule::ChordRule);
    assert_eq!(err.rest, "[ch]Am");
}

#[test]
fn bracket_empty_chord_fails() {
    let err = parse_bracket("[ch][/ch]").unwrap_err();
    assert_eq!(err.rule, GrammarRule::ChordRule);
}

#[test]
fn bracket_unterminated_label_fails() {
    let err = parse_bracket("x[Verse").unwrap_err();
    assert_eq!(err.rule, GrammarRule::LabelRule);
    assert_eq!(err.rest, "[Verse");
}

#[test]
fn bracket_almost_chord_tag_is_label() {
    let nodes = parse_bracket("[cheese]").unwrap();
    assert_eq!(nodes, vec![label("cheese")]);
}

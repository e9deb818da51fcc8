use chordsheet::model::{Options, TextNode};
use chordsheet::parse::GrammarRule;
use chordsheet::supermusic::{sm_input_ok_exec, sm_realign_line, Supermusic};
use chordsheet::ultimate_guitar::{ug_input_ok_exec, RawParsedData, UltimateGuitar};

fn text(s: &str) -> TextNode {
    TextNode::Text(s.to_string())
}

fn chord(s: &str) -> TextNode {
    TextNode::Chord(s.to_string())
}

fn sm_get(export: &str) -> Result<chordsheet::model::LyricsWithChords, chordsheet::parse::ParseError> {
    Supermusic::get(export.to_string(), "artist".to_string(), "song".to_string())
}

fn ug_get(
    tab: &str,
    options: Option<Options>,
) -> Result<chordsheet::model::LyricsWithChords, chordsheet::parse::ParseError> {
    UltimateGuitar::get(
        RawParsedData {
            artist: "artist".to_string(),
            song_name: "song".to_string(),
            tab_view: tab.to_string(),
        },
        options,
    )
}

#[test]
fn end_to_end_inline_already_aligned() {
    let export = "header\r\nheader\r\n[C]Hello[G] world\n";
    assert!(sm_input_ok_exec(export));
    let song = sm_get(export).unwrap();
    assert_eq!(
        song.text,
        vec![
            chord("C"),
            text("Hello"),
            chord("G"),
            text(" world"),
            TextNode::Newline
        ]
    );
    assert_eq!(song.artist, "artist");
    assert_eq!(song.song_name, "song");
}

#[test]
fn realign_leaves_word_start_chords_in_place() {
    let line = vec![chord("C"), text("Hello"), chord("G"), text(" world")];
    assert_eq!(sm_realign_line(&line), line);
}

#[test]
fn inline_misplaced_chord_moves_to_word_boundary() {
    let song = sm_get("h\nh\nhel[C]lo world\n").unwrap();
    assert_eq!(
        song.text,
        vec![
            text("hel"),
            text("lo"),
            chord("C"),
            text(" world"),
            TextNode::Newline
        ]
    );
}

#[test]
fn inline_flat_spelling_normalized() {
    let song = sm_get("h\nh\nla [Es]x\n").unwrap();
    assert_eq!(
        song.text,
        vec![text("la "), chord("Eb"), text("x"), TextNode::Newline]
    );
}

#[test]
fn inline_second_chord_of_textless_line_is_dropped() {
    // A line of two bare chords has no text to anchor the moved chord to,
    // so the relocation finds no text node and the chord vanishes.
    let song = sm_get("h\nh\n[C][G]\n").unwrap();
    assert_eq!(song.text, vec![chord("C"), TextNode::Newline]);
}

#[test]
fn inline_unterminated_last_line_is_kept() {
    let song = sm_get("h\nh\nhi there").unwrap();
    assert_eq!(song.text, vec![text("hi there")]);
}

#[test]
fn inline_lone_chord_line_converts() {
    let song = sm_get("h\nh\n[C]\n").unwrap();
    assert_eq!(song.text, vec![chord("C"), TextNode::Newline]);
}

#[test]
fn inline_parse_failure_is_reported() {
    let err = sm_get("h\nh\n[bad").unwrap_err();
    assert_eq!(err.rule, GrammarRule::ChordRule);
    assert_eq!(err.rest, "[bad");
}

#[test]
fn sm_input_checks() {
    assert!(!sm_input_ok_exec("no newline at all"));
    assert!(sm_input_ok_exec("h\nh\n[C]\n"));
    assert!(sm_input_ok_exec("h\nh\nhello\n"));
    assert!(sm_input_ok_exec("h\nh\n[bad"));
    assert!(sm_input_ok_exec("h\nh"));
}

#[test]
fn two_line_merge_places_chords_at_boundaries() {
    let song = ug_get("[tab][ch]C[/ch]   [ch]G[/ch]\nHello there[/tab]\n", None).unwrap();
    assert_eq!(
        song.text,
        vec![
            text(""),
            chord("C"),
            text("Hello "),
            chord("G"),
            text("there")
        ]
    );
}

#[test]
fn two_line_merge_normalizes_b_notation() {
    let song = ug_get("[ch]B[/ch] [ch]Bb[/ch]\nHello there\n", None).unwrap();
    assert_eq!(
        song.text,
        vec![
            text(""),
            chord("H"),
            text("Hello"),
            chord("B"),
            text(" there")
        ]
    );
}

#[test]
fn plain_label_becomes_blank_line() {
    let song = ug_get("[Intro]\nx\n", None).unwrap();
    assert_eq!(song.text, vec![TextNode::Newline, text("x")]);
}

#[test]
fn chorus_label_is_kept_with_marker() {
    let song = ug_get("[Chorus 1]\nx\n", None).unwrap();
    assert_eq!(
        song.text,
        vec![
            TextNode::Newline,
            TextNode::Label("\u{ae}:".to_string()),
            TextNode::Newline,
            text("x")
        ]
    );
}

#[test]
fn chorus_label_uses_configured_marker() {
    let song = ug_get(
        "[PRE-CHORUS]\nx\n",
        Some(Options {
            chorus_label: "R:".to_string(),
        }),
    )
    .unwrap();
    assert_eq!(
        song.text,
        vec![
            TextNode::Newline,
            TextNode::Label("R:".to_string()),
            TextNode::Newline,
            text("x")
        ]
    );
}

#[test]
fn bracket_parse_failure_is_reported() {
    let err = ug_get("[ch]x", None).unwrap_err();
    assert_eq!(err.rule, GrammarRule::ChordRule);
    assert_eq!(err.rest, "[ch]x");
}

#[test]
fn ug_input_checks() {
    assert!(ug_input_ok_exec("[ch]Bm[/ch]\nhi\n"));
    assert!(ug_input_ok_exec("[ch]B[/ch]\nhi\n"));
    assert!(!ug_input_ok_exec("[ch]C[/ch][Odd]\nlyric\n"));
    assert!(ug_input_ok_exec("[ch]x"));
}

#[test]
fn two_line_merge_passes_unknown_b_chord_through() {
    let song = ug_get("[ch]Bm[/ch]\nhello there\n", None).unwrap();
    assert_eq!(
        song.text,
        vec![text(""), chord("Bm"), text("hello there")]
    );
}

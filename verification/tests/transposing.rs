use chordsheet::model::{LyricsWithChords, TextNode};
use chordsheet::transpose::{chord_is_transposable, nodes_are_transposable, transpose};

fn tc(chord: &str, by: i32) -> String {
    LyricsWithChords::transpose_chord(chord.to_string(), by)
}

#[test]
fn transpose_simple_roots() {
    assert_eq!(tc("C", 2), "D");
    assert_eq!(tc("D", 2), "E");
    assert_eq!(tc("E", 1), "F");
    assert_eq!(tc("G", 2), "A");
    assert_eq!(tc("A", 1), "B");
}

#[test]
fn transpose_keeps_suffix() {
    assert_eq!(tc("Am7", 3), "Cm7");
    assert_eq!(tc("Fsus4", 2), "Gsus4");
}

#[test]
fn transpose_two_char_roots() {
    assert_eq!(tc("C#m", 1), "Dm");
    assert_eq!(tc("Eb", 1), "E");
    assert_eq!(tc("F#", 6), "C");
    assert_eq!(tc("Bb", 2), "C");
    assert_eq!(tc("A#", 1), "H");
}

#[test]
fn transpose_european_naturals() {
    assert_eq!(tc("H", 1), "C");
    assert_eq!(tc("B", 1), "H");
}

#[test]
fn transpose_wraps_modulo_twelve() {
    assert_eq!(tc("C", 12), "C");
    assert_eq!(tc("C", 25), "C#");
    assert_eq!(tc("C", -13), "H");
    assert_eq!(tc("D", -2), "C");
    assert_eq!(tc("C", 0), "C");
}

#[test]
fn transpose_slash_chord_shifts_root_and_bass() {
    assert_eq!(tc("C/E", 2), "D/F#");
}

#[test]
fn transpose_nested_slash_chord() {
    assert_eq!(tc("C/E/G", 2), "D/F#/A");
}

#[test]
fn transpose_zero_rerenders_canonically() {
    assert_eq!(tc("D#m", 0), "Ebm");
    assert_eq!(tc("G#", 0), "Ab");
}

#[test]
fn transpose_flat_sus_quirk_keeps_two_char_root() {
    // An `Ebsu`/`Absu` prefix consumes two characters but takes the natural
    // root's index: a legacy behavior kept for compatibility.
    assert_eq!(tc("Ebsus4", 0), "Esus4");
    assert_eq!(tc("Absus2", 0), "Asus2");
    assert_eq!(tc("Ebm", 0), "Ebm");
}

#[test]
fn transpose_round_trip_restores_canonical_chords() {
    for name in ["C", "C#", "D", "Eb", "E", "F", "F#", "G", "Ab", "A", "B", "H"] {
        for n in [1, 2, 5, 7] {
            let there = tc(name, n);
            let back = LyricsWithChords::transpose_chord(there.clone(), -n);
            assert_eq!(back, name, "round trip of {} by {} via {}", name, n, there);
        }
    }
    assert_eq!(tc(&tc("Am7", 4), -4), "Am7");
    assert_eq!(tc(&tc("C/E", 2), -2), "C/E");
}

#[test]
fn transpose_round_trip_counterexample_non_canonical() {
    // A non-canonical enharmonic spelling comes back as the canonical one.
    assert_eq!(tc(&tc("D#m", 1), -1), "Ebm");
}

#[test]
fn transpose_round_trip_canonicalizes_each_segment() {
    // Root and bass are canonicalized independently: D# and A# come back as
    // the canonical spellings of their pitch classes.
    assert_eq!(tc("D#/A#", 2), "F/C");
    assert_eq!(tc(&tc("D#/A#", 2), -2), "Eb/B");
}

#[test]
fn transpose_round_trip_counterexample_sus_quirk() {
    // Esus4 + 11 renders as Ebsus4, whose `Ebsu` prefix re-parses with the
    // natural root of E: the round trip does not restore it.
    assert_eq!(tc("Esus4", 11), "Ebsus4");
    assert_eq!(tc("Ebsus4", -11), "Fsus4");
}

#[test]
fn transpose_nodes_leaves_text_alone() {
    let nodes = vec![
        TextNode::Text("la la".to_string()),
        TextNode::Chord("C".to_string()),
        TextNode::Newline,
        TextNode::Label("Chorus".to_string()),
    ];
    let shifted = transpose(nodes, 2);
    assert_eq!(
        shifted,
        vec![
            TextNode::Text("la la".to_string()),
            TextNode::Chord("D".to_string()),
            TextNode::Newline,
            TextNode::Label("Chorus".to_string()),
        ]
    );
}

#[test]
fn transpose_method_keeps_artist_and_title() {
    let mut song = LyricsWithChords::new(
        vec![TextNode::Chord("G/H".to_string())],
        "artist".to_string(),
        "song".to_string(),
    );
    song.transpose(1);
    assert_eq!(song.text, vec![TextNode::Chord("Ab/C".to_string())]);
    assert_eq!(song.artist, "artist");
    assert_eq!(song.song_name, "song");
}

#[test]
fn transpose_document_round_trip() {
    let nodes = vec![
        TextNode::Chord("Am".to_string()),
        TextNode::Text("la".to_string()),
        TextNode::Chord("F#/C#".to_string()),
        TextNode::Newline,
        TextNode::Chord("H7".to_string()),
    ];
    let back = transpose(transpose(nodes.clone(), 3), -3);
    assert_eq!(back, nodes);
}

#[test]
fn transposable_checks() {
    assert!(chord_is_transposable("C#m7"));
    assert!(chord_is_transposable("G/B"));
    assert!(!chord_is_transposable("/E"));
    assert!(!chord_is_transposable("Xyz"));
    assert!(!chord_is_transposable(""));
    assert!(!chord_is_transposable("C/"));
    assert!(nodes_are_transposable(&vec![
        TextNode::Chord("Am".to_string()),
        TextNode::Text("x".to_string())
    ]));
    assert!(!nodes_are_transposable(&vec![TextNode::Chord(
        "?".to_string()
    )]));
}

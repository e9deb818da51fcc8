//! The document model: the typed node sequence a parsed song consists of,
//! and the song-level aggregate.

use vstd::prelude::*;

verus! {

/// One node of a song body. A line break is always exactly one `Newline`
/// node; chords and labels carry no position of their own — their position
/// is implied by their index among their siblings.
#[derive(Debug)]
pub enum TextNode {
    /// Literal lyric/prose content.
    Text(String),
    /// A chord symbol, e.g. `"Am7"` or `"G/B"`.
    Chord(String),
    /// A section marker, e.g. `"Chorus"`, extracted from bracket markup.
    Label(String),
    /// A line separator; never carries data.
    Newline,
}

/// The ghost counterpart of [`TextNode`], over character sequences.
pub enum NodeView {
    Text(Seq<char>),
    Chord(Seq<char>),
    Label(Seq<char>),
    Newline,
}

impl View for TextNode {
    type V = NodeView;

    open spec fn view(&self) -> NodeView {
        match self {
            TextNode::Text(t) => NodeView::Text(t@),
            TextNode::Chord(c) => NodeView::Chord(c@),
            TextNode::Label(l) => NodeView::Label(l@),
            TextNode::Newline => NodeView::Newline,
        }
    }
}

impl DeepView for TextNode {
    type V = NodeView;

    open spec fn deep_view(&self) -> NodeView {
        self.view()
    }
}

impl Clone for TextNode {
    fn clone(&self) -> (r: TextNode)
        ensures
            r == *self,
    {
        match self {
            TextNode::Text(t) => TextNode::Text(t.clone()),
            TextNode::Chord(c) => TextNode::Chord(c.clone()),
            TextNode::Label(l) => TextNode::Label(l.clone()),
            TextNode::Newline => TextNode::Newline,
        }
    }
}

/// Equality of two node views: same variant, same characters.
pub open spec fn node_view_eq(a: NodeView, b: NodeView) -> bool {
    match (a, b) {
        (NodeView::Text(x), NodeView::Text(y)) => x == y,
        (NodeView::Chord(x), NodeView::Chord(y)) => x == y,
        (NodeView::Label(x), NodeView::Label(y)) => x == y,
        (NodeView::Newline, NodeView::Newline) => true,
        _ => false,
    }
}

impl PartialEq for TextNode {
    fn eq(&self, other: &TextNode) -> (r: bool) {
        match (self, other) {
            (TextNode::Text(x), TextNode::Text(y)) => x.eq(y),
            (TextNode::Chord(x), TextNode::Chord(y)) => x.eq(y),
            (TextNode::Label(x), TextNode::Label(y)) => x.eq(y),
            (TextNode::Newline, TextNode::Newline) => true,
            _ => false,
        }
    }
}

impl vstd::std_specs::cmp::PartialEqSpecImpl for TextNode {
    open spec fn obeys_eq_spec() -> bool {
        true
    }

    open spec fn eq_spec(&self, other: &TextNode) -> bool {
        node_view_eq(self@, other@)
    }
}

/// The text a node contributes to column/offset arithmetic: the content of a
/// `Text` node; chords, labels and newlines contribute nothing.
pub open spec fn node_text(n: NodeView) -> Seq<char> {
    match n {
        NodeView::Text(t) => t,
        _ => Seq::empty(),
    }
}

/// The concatenation of all `Text` node contents of a line, the measure over
/// which chord columns and word boundaries are computed.
pub open spec fn line_text(line: Seq<NodeView>) -> Seq<char>
    decreases line.len(),
{
    if line.len() == 0 {
        Seq::empty()
    } else {
        node_text(line[0]) + line_text(line.drop_first())
    }
}

/// The song-level aggregate: artist, title and the node sequence spanning the
/// whole song, lines separated by `Newline` nodes.
#[derive(Debug)]
pub struct LyricsWithChords {
    pub text: Vec<TextNode>,
    pub artist: String,
    pub song_name: String,
}

impl LyricsWithChords {
    pub fn new(text: Vec<TextNode>, artist: String, song_name: String) -> (r: LyricsWithChords)
        ensures
            r.text == text,
            r.artist == artist,
            r.song_name == song_name,
    {
        LyricsWithChords { text, artist, song_name }
    }
}

/// Rendering/labeling configuration: the text substituted for any label node
/// recognized as a chorus marker.
pub struct Options {
    pub chorus_label: String,
}

impl core::default::Default for Options {
    /// The default chorus marker: a registered-sign glyph and a colon.
    fn default() -> (r: Options)
        ensures
            r.chorus_label@ == "\u{ae}:"@,
    {
        Options { chorus_label: "\u{ae}:".to_owned() }
    }
}

} // verus!

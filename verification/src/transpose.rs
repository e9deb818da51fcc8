//! The transposer: rewriting every chord's root pitch (and each bass note
//! after a `/` separator) by a semitone offset, re-rendered through a fixed
//! canonical spelling table.

use vstd::arithmetic::div_mod::{
    lemma_fundamental_div_mod, lemma_fundamental_div_mod_converse_mod,
};
use vstd::prelude::*;
use vstd::string::StrSliceExecFns;
use vstd::string::StringExecFns;

use crate::model::{LyricsWithChords, NodeView, TextNode};
use crate::strutil::{join_pat, split_pat, split_str};

verus! {

/// The semitone index of a natural root letter; `H` is the European natural
/// B, and `B` the European B-flat.
pub open spec fn natural_root(c: char) -> Option<int> {
    if c == 'C' {
        Some(0)
    } else if c == 'D' {
        Some(2)
    } else if c == 'E' {
        Some(4)
    } else if c == 'F' {
        Some(5)
    } else if c == 'G' {
        Some(7)
    } else if c == 'A' {
        Some(9)
    } else if c == 'B' {
        Some(10)
    } else if c == 'H' {
        Some(11)
    } else {
        None
    }
}

/// Parses the root prefix of one chord segment: the semitone index and the
/// suffix after the consumed prefix. Two-character sharp/flat spellings are
/// consumed before the single-character naturals. An `Ebsu`/`Absu` prefix
/// still consumes two characters but takes the natural index of `E`/`A`: a
/// legacy quirk kept so that existing content keeps its alignment and
/// spelling behavior.
pub open spec fn root_parse(seg: Seq<char>) -> Option<(int, Seq<char>)> {
    if seg.len() >= 2 && seg[0] == 'C' && seg[1] == '#' {
        Some((1int, seg.skip(2)))
    } else if seg.len() >= 2 && seg[0] == 'D' && seg[1] == '#' {
        Some((3int, seg.skip(2)))
    } else if seg.len() >= 2 && seg[0] == 'E' && seg[1] == 'b' {
        if seg.len() >= 4 && seg[2] == 's' && seg[3] == 'u' {
            Some((4int, seg.skip(2)))
        } else {
            Some((3int, seg.skip(2)))
        }
    } else if seg.len() >= 2 && seg[0] == 'F' && seg[1] == '#' {
        Some((6int, seg.skip(2)))
    } else if seg.len() >= 2 && seg[0] == 'G' && seg[1] == '#' {
        Some((8int, seg.skip(2)))
    } else if seg.len() >= 2 && seg[0] == 'A' && seg[1] == 'b' {
        if seg.len() >= 4 && seg[2] == 's' && seg[3] == 'u' {
            Some((9int, seg.skip(2)))
        } else {
            Some((8int, seg.skip(2)))
        }
    } else if seg.len() >= 2 && seg[0] == 'A' && seg[1] == '#' {
        Some((10int, seg.skip(2)))
    } else if seg.len() >= 2 && seg[0] == 'B' && seg[1] == 'b' {
        Some((10int, seg.skip(2)))
    } else if seg.len() >= 1 {
        match natural_root(seg[0]) {
            Some(i) => Some((i, seg.skip(1))),
            None => None,
        }
    } else {
        None
    }
}

/// The fixed canonical spelling of a semitone index.
pub open spec fn canonical_root(j: int) -> Seq<char> {
    if j == 0 {
        seq!['C']
    } else if j == 1 {
        seq!['C', '#']
    } else if j == 2 {
        seq!['D']
    } else if j == 3 {
        seq!['E', 'b']
    } else if j == 4 {
        seq!['E']
    } else if j == 5 {
        seq!['F']
    } else if j == 6 {
        seq!['F', '#']
    } else if j == 7 {
        seq!['G']
    } else if j == 8 {
        seq!['A', 'b']
    } else if j == 9 {
        seq!['A']
    } else if j == 10 {
        seq!['B']
    } else if j == 11 {
        seq!['H']
    } else {
        Seq::empty()
    }
}

/// One segment with its root shifted by `m` semitones, wrapped modulo 12 and
/// re-rendered canonically; the suffix is kept verbatim. A segment whose
/// root is not in the tables stays unchanged (callers rule that case out).
pub open spec fn shift_segment(seg: Seq<char>, m: int) -> Seq<char> {
    match root_parse(seg) {
        Some((i, suffix)) => canonical_root((i + m) % 12) + suffix,
        None => seg,
    }
}

/// A chord split at every `/` into its root segment and bass segments.
pub open spec fn chord_segments(c: Seq<char>) -> Seq<Seq<char>> {
    split_pat(c, seq!['/'])
}

/// A chord the transposer accepts: every segment has a recognized root.
pub open spec fn chord_ok(c: Seq<char>) -> bool {
    forall|k: int|
        0 <= k < chord_segments(c).len() ==> root_parse(#[trigger] chord_segments(c)[k]) is Some
}

/// A whole chord transposed: root and every bass note shifted independently,
/// the same modifier for each, rejoined with `/`.
pub open spec fn transpose_chord_spec(c: Seq<char>, m: int) -> Seq<char> {
    join_pat(chord_segments(c).map_values(|seg: Seq<char>| shift_segment(seg, m)), seq!['/'])
}

/// Looks up the root prefix of a segment: its semitone index and how many
/// characters the spelling consumes.
fn root_lookup(seg: &str) -> (r: Option<(u32, usize)>)
    ensures
        match r {
            Some(p) => {
                &&& root_parse(seg@) == Some((p.0 as int, seg@.skip(p.1 as int)))
                &&& 0 <= p.0 < 12
                &&& 1 <= p.1 <= seg@.len()
            },
            None => root_parse(seg@) is None,
        },
{
    let n = seg.unicode_len();
    if n == 0 {
        return None;
    }
    let c0 = seg.get_char(0);
    if n >= 2 {
        let c1 = seg.get_char(1);
        let su = n >= 4 && seg.get_char(2) == 's' && seg.get_char(3) == 'u';
        if c0 == 'C' && c1 == '#' {
            return Some((1, 2));
        }
        if c0 == 'D' && c1 == '#' {
            return Some((3, 2));
        }
        if c0 == 'E' && c1 == 'b' {
            return if su {
                Some((4, 2))
            } else {
                Some((3, 2))
            };
        }
        if c0 == 'F' && c1 == '#' {
            return Some((6, 2));
        }
        if c0 == 'G' && c1 == '#' {
            return Some((8, 2));
        }
        if c0 == 'A' && c1 == 'b' {
            return if su {
                Some((9, 2))
            } else {
                Some((8, 2))
            };
        }
        if c0 == 'A' && c1 == '#' {
            return Some((10, 2));
        }
        if c0 == 'B' && c1 == 'b' {
            return Some((10, 2));
        }
    }
    if c0 == 'C' {
        Some((0, 1))
    } else if c0 == 'D' {
        Some((2, 1))
    } else if c0 == 'E' {
        Some((4, 1))
    } else if c0 == 'F' {
        Some((5, 1))
    } else if c0 == 'G' {
        Some((7, 1))
    } else if c0 == 'A' {
        Some((9, 1))
    } else if c0 == 'B' {
        Some((10, 1))
    } else if c0 == 'H' {
        Some((11, 1))
    } else {
        None
    }
}

/// The semitone index shifted by the modifier, wrapped into `[0, 12)` with
/// true modulo-12 arithmetic.
fn wrap_semitones(idx: u32, modifier: i32) -> (j: u32)
    requires
        idx < 12,
    ensures
        j < 12,
        j as int == (idx as int + modifier as int) % 12,
{
    let ghost x = idx as int + modifier as int;
    if modifier >= 0 {
        let m = (modifier as u32) % 12;
        proof {
            lemma_fundamental_div_mod(modifier as int, 12);
            let q = modifier as int / 12;
            if idx + m < 12 {
                lemma_fundamental_div_mod_converse_mod(x, 12, q, idx as int + m as int);
            } else {
                lemma_fundamental_div_mod_converse_mod(x, 12, q + 1, idx as int + m as int - 12);
            }
        }
        let j0 = idx + m;
        if j0 >= 12 {
            j0 - 12
        } else {
            j0
        }
    } else {
        let neg: u64 = (-(modifier as i64)) as u64;
        let m = (neg % 12) as u32;
        proof {
            lemma_fundamental_div_mod(neg as int, 12);
            let q = neg as int / 12;
            assert(modifier as int == -12 * q - (m as int));
            if idx as int + 12 - m as int >= 12 {
                assert(x == 12 * (-q) + (idx as int - m as int));
                lemma_fundamental_div_mod_converse_mod(x, 12, -q, idx as int - m as int);
            } else {
                assert(x == 12 * (-q - 1) + (idx as int + 12 - m as int));
                lemma_fundamental_div_mod_converse_mod(x, 12, -q - 1, idx as int + 12 - m as int);
            }
        }
        let j0 = idx + 12 - m;
        if j0 >= 12 {
            j0 - 12
        } else {
            j0
        }
    }
}

/// The canonical spelling of a semitone index.
fn canonical_root_str(j: u32) -> (r: &'static str)
    requires
        j < 12,
    ensures
        r@ == canonical_root(j as int),
{
    proof {
        reveal_strlit("C");
        reveal_strlit("C#");
        reveal_strlit("D");
        reveal_strlit("Eb");
        reveal_strlit("E");
        reveal_strlit("F");
        reveal_strlit("F#");
        reveal_strlit("G");
        reveal_strlit("Ab");
        reveal_strlit("A");
        reveal_strlit("B");
        reveal_strlit("H");
    }
    let r: &'static str = if j == 0 {
        "C"
    } else if j == 1 {
        "C#"
    } else if j == 2 {
        "D"
    } else if j == 3 {
        "Eb"
    } else if j == 4 {
        "E"
    } else if j == 5 {
        "F"
    } else if j == 6 {
        "F#"
    } else if j == 7 {
        "G"
    } else if j == 8 {
        "Ab"
    } else if j == 9 {
        "A"
    } else if j == 10 {
        "B"
    } else {
        "H"
    };
    proof {
        assert(r@ =~= canonical_root(j as int));
    }
    r
}

/// One segment transposed: parsed root shifted and re-rendered, suffix kept.
fn shift_root(seg: &str, modifier: i32) -> (r: String)
    requires
        root_parse(seg@) is Some,
    ensures
        r@ == shift_segment(seg@, modifier as int),
{
    let n = seg.unicode_len();
    let lk = root_lookup(seg);
    match lk {
        Some((idx, cons)) => {
            let j = wrap_semitones(idx, modifier);
            let root = canonical_root_str(j);
            let suffix = seg.substring_char(cons, n);
            let out = root.to_owned().concat(suffix);
            proof {
                assert(suffix@ =~= seg@.skip(cons as int));
                assert(out@ == canonical_root(j as int) + seg@.skip(cons as int));
            }
            out
        },
        None => {
            proof {
                assert(false);
            }
            String::new()
        },
    }
}

/// Whether the transposer accepts every chord of a node sequence.
pub open spec fn nodes_transposable(nodes: Seq<NodeView>) -> bool {
    forall|k: int|
        0 <= k < nodes.len() ==> (#[trigger] nodes[k] is Chord ==> chord_ok(nodes[k]->Chord_0))
}

/// Every chord node transposed by `m`; text, labels and newlines unchanged.
pub open spec fn transpose_nodes(nodes: Seq<NodeView>, m: int) -> Seq<NodeView> {
    nodes.map_values(
        |n: NodeView|
            match n {
                NodeView::Chord(c) => NodeView::Chord(transpose_chord_spec(c, m)),
                other => other,
            },
    )
}

/// Whether the transposer accepts a chord: every `/`-separated segment
/// starts with a recognized root spelling.
pub fn chord_is_transposable(chord: &str) -> (b: bool)
    ensures
        b == chord_ok(chord@),
{
    proof {
        reveal_strlit("/");
        assert("/"@ =~= seq!['/']);
    }
    let parts = split_str(chord, "/");
    let ghost segs = chord_segments(chord@);
    let mut k: usize = 0;
    while k < parts.len()
        invariant
            k <= parts.len(),
            parts.deep_view() == segs,
            segs == chord_segments(chord@),
            forall|j: int| 0 <= j < k ==> root_parse(#[trigger] segs[j]) is Some,
        decreases parts.len() - k,
    {
        if root_lookup(parts[k].as_str()).is_none() {
            assert(root_parse(chord_segments(chord@)[k as int]) is None);
            assert(!chord_ok(chord@));
            return false;
        }
        k = k + 1;
    }
    assert forall|j: int| 0 <= j < chord_segments(chord@).len() implies root_parse(
        #[trigger] chord_segments(chord@)[j],
    ) is Some by {
        assert(root_parse(segs[j]) is Some);
    }
    true
}

impl LyricsWithChords {
    /// One chord transposed by `modifier` semitones: the root and every bass
    /// note after a `/` are shifted independently by the same amount and
    /// re-rendered through the canonical spelling table; each segment's
    /// suffix is kept verbatim.
    pub fn transpose_chord(chord: String, modifier: i32) -> (r: String)
        requires
            chord_ok(chord@),
        ensures
            r@ == transpose_chord_spec(chord@, modifier as int),
    {
        proof {
            reveal_strlit("/");
            assert("/"@ =~= seq!['/']);
        }
        let parts = split_str(chord.as_str(), "/");
        let ghost segs = chord_segments(chord@);
        let ghost f = |seg: Seq<char>| shift_segment(seg, modifier as int);
        let mut shifted: Vec<String> = Vec::new();
        let mut k: usize = 0;
        proof {
            assert(shifted.deep_view() =~~= segs.take(0).map_values(f));
        }
        while k < parts.len()
            invariant
                k <= parts.len(),
                parts.deep_view() == segs,
                chord_ok(chord@),
                segs == chord_segments(chord@),
                f == (|seg: Seq<char>| shift_segment(seg, modifier as int)),
                shifted.deep_view() == segs.take(k as int).map_values(f),
            decreases parts.len() - k,
        {
            let ghost pre = shifted.deep_view();
            assert(root_parse(segs[k as int]) is Some);
            let s = shift_root(parts[k].as_str(), modifier);
            shifted.push(s);
            proof {
                assert(shifted.deep_view() =~~= pre.push(f(segs[k as int])));
                assert(segs.take(k + 1).map_values(f) =~~= segs.take(k as int).map_values(f).push(
                    f(segs[k as int]),
                ));
            }
            k = k + 1;
        }
        proof {
            assert(segs.take(parts.len() as int) =~~= segs);
        }
        crate::strutil::join_with(&shifted, "/")
    }

    /// Every chord of the song transposed by `modifier` semitones, in place;
    /// artist and title are untouched.
    pub fn transpose(&mut self, modifier: i32)
        requires
            nodes_transposable(old(self).text.deep_view()),
        ensures
            final(self).text.deep_view() == transpose_nodes(
                old(self).text.deep_view(),
                modifier as int,
            ),
            final(self).artist == old(self).artist,
            final(self).song_name == old(self).song_name,
    {
        let ghost nv = self.text.deep_view();
        let ghost f = |n: NodeView|
            match n {
                NodeView::Chord(c) => NodeView::Chord(
                    transpose_chord_spec(c, modifier as int),
                ),
                other => other,
            };
        let mut out: Vec<TextNode> = Vec::new();
        let mut i: usize = 0;
        proof {
            assert(out.deep_view() =~~= nv.take(0).map_values(f));
        }
        while i < self.text.len()
            invariant
                i <= self.text.len(),
                nv == self.text.deep_view(),
                self.text == old(self).text,
                nodes_transposable(nv),
                f == (|n: NodeView|
                    match n {
                        NodeView::Chord(c) => NodeView::Chord(
                            transpose_chord_spec(c, modifier as int),
                        ),
                        other => other,
                    }),
                out.deep_view() == nv.take(i as int).map_values(f),
            decreases self.text.len() - i,
        {
            let ghost pre = out.deep_view();
            let node = self.text[i].clone();
            proof {
                assert(node@ == nv[i as int]);
            }
            match node {
                TextNode::Chord(c) => {
                    assert(nv[i as int] is Chord && nv[i as int]->Chord_0 == c@);
                    let t = Self::transpose_chord(c, modifier);
                    out.push(TextNode::Chord(t));
                },
                other => {
                    out.push(other);
                },
            }
            proof {
                assert(out.deep_view() =~~= pre.push(f(nv[i as int])));
                assert(nv.take(i + 1).map_values(f) =~~= nv.take(i as int).map_values(f).push(
                    f(nv[i as int]),
                ));
            }
            i = i + 1;
        }
        proof {
            assert(nv.take(self.text.len() as int) =~~= nv);
            assert(nv.take(self.text.len() as int).map_values(f) =~~= transpose_nodes(
                nv,
                modifier as int,
            ));
        }
        self.text = out;
    }
}

/// Whether the transposer accepts every chord node of a sequence.
pub fn nodes_are_transposable(nodes: &Vec<TextNode>) -> (b: bool)
    ensures
        b == nodes_transposable(nodes.deep_view()),
{
    let ghost nv = nodes.deep_view();
    let mut i: usize = 0;
    while i < nodes.len()
        invariant
            i <= nodes.len(),
            nv == nodes.deep_view(),
            forall|j: int|
                0 <= j < i ==> (#[trigger] nv[j] is Chord ==> chord_ok(nv[j]->Chord_0)),
        decreases nodes.len() - i,
    {
        let ok = match &nodes[i] {
            TextNode::Chord(c) => chord_is_transposable(c.as_str()),
            _ => true,
        };
        if !ok {
            assert(nv[i as int] is Chord && !chord_ok(nv[i as int]->Chord_0));
            return false;
        }
        i = i + 1;
    }
    true
}

/// A flat node sequence transposed by `modifier` semitones.
pub fn transpose(nodes: Vec<TextNode>, modifier: i32) -> (r: Vec<TextNode>)
    requires
        nodes_transposable(nodes.deep_view()),
    ensures
        r.deep_view() == transpose_nodes(nodes.deep_view(), modifier as int),
{
    let mut dummy_lyrics = LyricsWithChords::new(nodes, String::new(), String::new());
    dummy_lyrics.transpose(modifier);
    dummy_lyrics.text
}

} // verus!

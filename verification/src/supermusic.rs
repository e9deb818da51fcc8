//! The single-line realigner for the inline bracket-chord dialect: chords
//! embedded in a lyric line at columns that need not fall on word boundaries
//! are relocated to the nearest word boundary, followed by an enharmonic
//! spelling fix, removal of emptied text nodes and spacing of adjacent
//! chords.

use vstd::prelude::*;
use vstd::string::StrSliceExecFns;

use crate::align::{
    boundary_list, closest_boundary, closest_boundary_spec, drop_empty_text, filter_empty_text,
    push_chord_spec, space_adjacent_chords, space_chords, word_boundaries, Appendable,
};
use crate::lines::{join_lines, join_lines_exec, lines_of, split_lines, text_of_line};
use crate::model::{line_text, LyricsWithChords, NodeView, TextNode};
use crate::parse::{inline_tokens, parse_inline, ParseError, Parsed};
use crate::strutil::{join_pat, replace_all, replace_pat, split_pat, split_str};

verus! {

/// Concatenated line text distributes over appending node sequences.
pub proof fn lemma_line_text_append(a: Seq<NodeView>, b: Seq<NodeView>)
    ensures
        line_text(a + b) == line_text(a) + line_text(b),
    decreases a.len(),
{
    if a.len() == 0 {
        assert(a + b =~~= b);
        assert(line_text(a) + line_text(b) =~= line_text(b));
    } else {
        assert((a + b).drop_first() =~~= a.drop_first() + b);
        assert((a + b)[0] == a[0]);
        lemma_line_text_append(a.drop_first(), b);
        assert(crate::model::node_text(a[0]) + (line_text(a.drop_first()) + line_text(b))
            =~= (crate::model::node_text(a[0]) + line_text(a.drop_first())) + line_text(b));
    }
}

/// A chord that must be relocated: it is not the first node, and it is
/// neither preceded by a space-ended text node nor — when it follows another
/// chord — followed by a space-started text node or by a further chord
/// (a chord following another chord at the very end of the line moves too).
pub open spec fn sm_misplaced(line: Seq<NodeView>, i: int) -> bool {
    &&& 0 <= i < line.len()
    &&& line[i] is Chord
    &&& i != 0
    &&& match line[i - 1] {
        NodeView::Text(t) => !(t.len() >= 1 && t[t.len() - 1] == ' '),
        _ => if i != line.len() - 1 {
            match line[i + 1] {
                NodeView::Text(t) => !(t.len() >= 1 && t[0] == ' '),
                _ => false,
            }
        } else {
            true
        },
    }
}

/// The nodes that stay in place, in order.
pub open spec fn sm_kept_from(line: Seq<NodeView>, i: int) -> Seq<NodeView>
    decreases line.len() - i,
{
    if i < 0 || i >= line.len() {
        Seq::empty()
    } else if sm_misplaced(line, i) {
        sm_kept_from(line, i + 1)
    } else {
        seq![line[i]] + sm_kept_from(line, i + 1)
    }
}

/// The relocations, in original chord order: each misplaced chord paired
/// with the boundary nearest to its original character column (the length of
/// all text before it).
pub open spec fn sm_moves_from(line: Seq<NodeView>, i: int, bs: Seq<int>) -> Seq<(int, NodeView)>
    decreases line.len() - i,
{
    if i < 0 || i >= line.len() {
        Seq::empty()
    } else if sm_misplaced(line, i) {
        seq![(closest_boundary_spec(bs, line_text(line.take(i)).len() as int), line[i])]
            + sm_moves_from(line, i + 1, bs)
    } else {
        sm_moves_from(line, i + 1, bs)
    }
}

/// All relocations folded into a line through insert-chord-at-offset.
pub open spec fn push_all(line: Seq<NodeView>, moves: Seq<(int, NodeView)>) -> Seq<NodeView>
    decreases moves.len(),
{
    if moves.len() == 0 {
        line
    } else {
        push_all(push_chord_spec(line, moves[0].0, moves[0].1), moves.drop_first())
    }
}

/// The inline dialect's enharmonic spelling fix for one chord.
pub open spec fn sm_fix_chord(c: Seq<char>) -> Seq<char> {
    replace_pat(replace_pat(c, seq!['E', 's'], seq!['E', 'b']), seq!['A', 's'], seq!['A', 'b'])
}

/// The spelling fix applied to every chord of a line.
pub open spec fn sm_normalize_chords(line: Seq<NodeView>) -> Seq<NodeView> {
    line.map_values(
        |n: NodeView|
            match n {
                NodeView::Chord(c) => NodeView::Chord(sm_fix_chord(c)),
                other => other,
            },
    )
}

/// One line realigned: misplaced chords are removed and reinserted at the
/// boundary nearest their original column (boundaries computed once from the
/// line's own text), chord spellings fixed, emptied text nodes dropped, and
/// adjacent chords separated by a single space.
pub open spec fn sm_fix_line(line: Seq<NodeView>) -> Seq<NodeView> {
    let bs = boundary_list(line_text(line));
    let reordered = push_all(sm_kept_from(line, 0), sm_moves_from(line, 0, bs));
    space_adjacent_chords(drop_empty_text(sm_normalize_chords(reordered)))
}

/// The spelling fix applied to every chord node of a line.
fn sm_normalize_exec(line: &Vec<TextNode>) -> (r: Vec<TextNode>)
    ensures
        r.deep_view() == sm_normalize_chords(line.deep_view()),
{
    let ghost lv = line.deep_view();
    let ghost f = |n: NodeView|
        match n {
            NodeView::Chord(c) => NodeView::Chord(sm_fix_chord(c)),
            other => other,
        };
    let mut out: Vec<TextNode> = Vec::new();
    let mut i: usize = 0;
    proof {
        assert(out.deep_view() =~~= lv.take(0).map_values(f));
    }
    while i < line.len()
        invariant
            i <= line.len(),
            lv == line.deep_view(),
            f == (|n: NodeView|
                match n {
                    NodeView::Chord(c) => NodeView::Chord(sm_fix_chord(c)),
                    other => other,
                }),
            out.deep_view() == lv.take(i as int).map_values(f),
        decreases line.len() - i,
    {
        let ghost pre = out.deep_view();
        let node = line[i].clone();
        proof {
            assert(node@ == lv[i as int]);
        }
        match node {
            TextNode::Chord(c) => {
                proof {
                    reveal_strlit("Es");
                    reveal_strlit("Eb");
                    reveal_strlit("As");
                    reveal_strlit("Ab");
                    assert("Es"@ =~= seq!['E', 's']);
                    assert("Eb"@ =~= seq!['E', 'b']);
                    assert("As"@ =~= seq!['A', 's']);
                    assert("Ab"@ =~= seq!['A', 'b']);
                }
                let fixed = replace_all(replace_all(c.as_str(), "Es", "Eb").as_str(), "As", "Ab");
                out.push(TextNode::Chord(fixed));
            },
            other => {
                out.push(other);
            },
        }
        proof {
            assert(out.deep_view() =~~= pre.push(f(lv[i as int])));
            assert(lv.take(i + 1).map_values(f) =~~= lv.take(i as int).map_values(f).push(
                f(lv[i as int]),
            ));
        }
        i = i + 1;
    }
    proof {
        assert(lv.take(line.len() as int) =~~= lv);
    }
    out
}

/// Realigns one inline-dialect line.
pub fn sm_realign_line(line: &Vec<TextNode>) -> (r: Vec<TextNode>)
    ensures
        r.deep_view() == sm_fix_line(line.deep_view()),
{
    let ghost lv = line.deep_view();
    let text = text_of_line(line);
    let total = text.unicode_len();
    let bs = word_boundaries(text.as_str());
    let ghost bsv = bs@.map_values(|u: usize| u as int);

    let mut kept: Vec<TextNode> = Vec::new();
    let mut positions: Vec<usize> = Vec::new();
    let mut moved: Vec<TextNode> = Vec::new();
    let ghost mut movesv: Seq<(int, NodeView)> = Seq::empty();
    let mut ci: usize = 0;
    let mut i: usize = 0;
    proof {
        assert(lv.take(0) =~~= Seq::<NodeView>::empty());
        assert(kept.deep_view() + sm_kept_from(lv, 0) =~~= sm_kept_from(lv, 0));
        assert(movesv + sm_moves_from(lv, 0, bsv) =~~= sm_moves_from(lv, 0, bsv));
    }
    while i < line.len()
        invariant
            i <= line.len(),
            lv == line.deep_view(),
            total == line_text(lv).len(),
            bsv == bs@.map_values(|u: usize| u as int),
            bsv == boundary_list(line_text(lv)),
            bs.len() >= 1,
            ci == line_text(lv.take(i as int)).len(),
            ci <= total,
            sm_kept_from(lv, 0) == kept.deep_view() + sm_kept_from(lv, i as int),
            sm_moves_from(lv, 0, bsv) == movesv + sm_moves_from(lv, i as int, bsv),
            positions.len() == moved.len() == movesv.len(),
            forall|j: int|
                0 <= j < movesv.len() ==> #[trigger] movesv[j] == (
                    positions@[j] as int,
                    moved@[j]@,
                ),
        decreases line.len() - i,
    {
        let ghost kept_pre = kept.deep_view();
        let ghost moves_pre = movesv;
        let is_chord = matches!(line[i], TextNode::Chord(_));
        let misplaced: bool = if !is_chord || i == 0 {
            false
        } else {
            match &line[i - 1] {
                TextNode::Text(t) => {
                    let tl = t.unicode_len();
                    !(tl >= 1 && t.as_str().get_char(tl - 1) == ' ')
                },
                _ => {
                    if i != line.len() - 1 {
                        match &line[i + 1] {
                            TextNode::Text(t) => {
                                let tl = t.unicode_len();
                                !(tl >= 1 && t.as_str().get_char(0) == ' ')
                            },
                            _ => false,
                        }
                    } else {
                        true
                    }
                },
            }
        };
        proof {
            assert(lv[i as int] == line@[i as int]@);
            if i > 0 {
                assert(lv[i - 1] == line@[i - 1]@);
            }
            if i + 1 < line.len() {
                assert(lv[i + 1] == line@[i + 1]@);
            }
            assert(misplaced == sm_misplaced(lv, i as int));
        }
        if misplaced {
            let target = closest_boundary(&bs, ci);
            positions.push(target);
            moved.push(line[i].clone());
            proof {
                movesv = movesv.push((target as int, lv[i as int]));
                assert(seq![(closest_boundary_spec(bsv, ci as int), lv[i as int])]
                    + sm_moves_from(lv, i + 1, bsv) =~= seq![(target as int, lv[i as int])]
                    + sm_moves_from(lv, i + 1, bsv));
                assert(moves_pre + (seq![(target as int, lv[i as int])] + sm_moves_from(
                    lv,
                    i + 1,
                    bsv,
                )) =~= movesv + sm_moves_from(lv, i + 1, bsv));
            }
        } else {
            kept.push(line[i].clone());
            proof {
                assert(kept.deep_view() =~~= kept_pre.push(lv[i as int]));
                assert(kept_pre + (seq![lv[i as int]] + sm_kept_from(lv, i + 1)) =~~= (kept_pre
                    + seq![lv[i as int]]) + sm_kept_from(lv, i + 1));
            }
        }
        let tl = match &line[i] {
            TextNode::Text(t) => t.unicode_len(),
            _ => 0,
        };
        proof {
            assert(crate::model::node_text(lv[i as int]).len() == tl);
            assert(lv.take(i + 1) =~~= lv.take(i as int).push(lv[i as int]));
            crate::lines::lemma_line_text_snoc(lv.take(i as int), lv[i as int]);
            assert(lv.take(line.len() as int) =~~= lv);
            if i + 1 <= line.len() {
                assert(lv =~~= lv.take(i + 1) + lv.skip(i + 1));
                lemma_line_text_append(lv.take(i + 1), lv.skip(i + 1));
            }
        }
        ci = ci + tl;
        i = i + 1;
    }
    proof {
        assert(lv.take(line.len() as int) =~~= lv);
        assert(sm_kept_from(lv, line.len() as int) =~~= Seq::<NodeView>::empty());
        assert(kept.deep_view() + Seq::<NodeView>::empty() =~~= kept.deep_view());
        assert(sm_moves_from(lv, line.len() as int, bsv) =~~= Seq::<(int, NodeView)>::empty());
        assert(movesv + Seq::<(int, NodeView)>::empty() =~~= movesv);
        assert(kept.deep_view() == sm_kept_from(lv, 0));
        assert(movesv == sm_moves_from(lv, 0, bsv));
    }

    let ghost kept0 = kept.deep_view();
    let mut merged = kept;
    let mut j: usize = 0;
    proof {
        assert(movesv.skip(0) =~= movesv);
    }
    while j < positions.len()
        invariant
            j <= positions.len(),
            positions.len() == moved.len() == movesv.len(),
            forall|l: int|
                0 <= l < movesv.len() ==> #[trigger] movesv[l] == (
                    positions@[l] as int,
                    moved@[l]@,
                ),
            push_all(merged.deep_view(), movesv.skip(j as int)) == push_all(kept0, movesv),
        decreases positions.len() - j,
    {
        let ghost pre = merged.deep_view();
        let pos = positions[j];
        let node = moved[j].clone();
        proof {
            assert(node@ == moved@[j as int]@);
            assert(movesv.skip(j as int)[0] == movesv[j as int]);
            assert(movesv.skip(j as int).drop_first() =~= movesv.skip(j + 1));
        }
        merged.push_chord(pos, node);
        proof {
            assert(merged.deep_view() == push_chord_spec(pre, pos as int, moved@[j as int]@));
        }
        j = j + 1;
    }
    proof {
        assert(movesv.skip(positions.len() as int) =~= Seq::<(int, NodeView)>::empty());
        assert(merged.deep_view() == push_all(kept0, movesv));
    }

    let normalized = sm_normalize_exec(&merged);
    let filtered = filter_empty_text(&normalized);
    let spaced = space_chords(&filtered);
    spaced
}

/// The raw text-export body prepared for parsing: line endings normalized to
/// a single newline and the first two lines (the export's header whitespace)
/// removed.
pub open spec fn sm_prepared(raw: Seq<char>) -> Seq<char> {
    join_pat(
        split_pat(replace_pat(raw, seq!['\r', '\n'], seq!['\n']), seq!['\n']).skip(2),
        seq!['\n'],
    )
}

/// An export text the conversion accepts: it has at least the two header
/// lines that are dropped before parsing.
pub open spec fn sm_input_ok(raw: Seq<char>) -> bool {
    split_pat(replace_pat(raw, seq!['\r', '\n'], seq!['\n']), seq!['\n']).len() >= 2
}

/// The whole parsed body realigned: every line fixed independently, lines
/// rejoined with single newlines.
pub open spec fn sm_realigned(ns: Seq<NodeView>) -> Seq<NodeView> {
    join_lines(split_lines(ns).map_values(|l: Seq<NodeView>| sm_fix_line(l)))
}

/// The inline bracket-chord source.
pub struct Supermusic {}

impl Supermusic {
    /// Converts a raw text export (plus the artist and song title extracted
    /// elsewhere) into a realigned song: the export header is stripped, the
    /// body tokenized, every line realigned, and the lines rejoined. A
    /// malformed body yields the parse failure unchanged.
    pub fn get(txt_export_document: String, artist: String, song_name: String) -> (r: Result<
        LyricsWithChords,
        ParseError,
    >)
        requires
            sm_input_ok(txt_export_document@),
        ensures
            match r {
                Ok(l) => {
                    &&& inline_tokens(sm_prepared(txt_export_document@)) is Nodes
                    &&& l.text.deep_view() == sm_realigned(
                        inline_tokens(sm_prepared(txt_export_document@))->Nodes_0,
                    )
                    &&& l.artist == artist
                    &&& l.song_name == song_name
                },
                Err(e) => inline_tokens(sm_prepared(txt_export_document@)) == Parsed::Fail(
                    e.rest@,
                    e.rule,
                ),
            },
    {
        proof {
            reveal_strlit("\r\n");
            reveal_strlit("\n");
            assert("\r\n"@ =~= seq!['\r', '\n']);
            assert("\n"@ =~= seq!['\n']);
        }
        let lf_template = replace_all(txt_export_document.as_str(), "\r\n", "\n");
        let mut song_template = split_str(lf_template.as_str(), "\n");
        let ghost parts0 = song_template.deep_view();
        song_template.remove(0);
        song_template.remove(0);
        proof {
            assert(song_template.deep_view() =~~= parts0.skip(2));
        }
        let body = crate::strutil::join_with(&song_template, "\n");
        proof {
            assert(body@ == sm_prepared(txt_export_document@));
        }
        let nodes = match parse_inline(body.as_str()) {
            Ok(ns) => ns,
            Err(e) => {
                return Err(e);
            },
        };
        let lines = lines_of(&nodes);
        let ghost linesv = lines.deep_view();
        let ghost g = |l: Seq<NodeView>| sm_fix_line(l);
        let mut fixed: Vec<Vec<TextNode>> = Vec::new();
        let mut k: usize = 0;
        proof {
            assert(fixed.deep_view() =~~= linesv.take(0).map_values(g));
        }
        while k < lines.len()
            invariant
                k <= lines.len(),
                linesv == lines.deep_view(),
                g == (|l: Seq<NodeView>| sm_fix_line(l)),
                fixed.deep_view() == linesv.take(k as int).map_values(g),
            decreases lines.len() - k,
        {
            let ghost pre = fixed.deep_view();
            let corrected = sm_realign_line(&lines[k]);
            fixed.push(corrected);
            proof {
                assert(fixed.deep_view() =~~= pre.push(g(linesv[k as int])));
                assert(linesv.take(k + 1).map_values(g) =~~= linesv.take(k as int).map_values(
                    g,
                ).push(g(linesv[k as int])));
            }
            k = k + 1;
        }
        proof {
            assert(linesv.take(lines.len() as int) =~~= linesv);
        }
        let joined = join_lines_exec(fixed);
        Ok(LyricsWithChords::new(joined, artist, song_name))
    }
}

/// Whether the conversion accepts a raw text export: used by callers to
/// test [`Supermusic::get`]'s precondition before the call.
pub fn sm_input_ok_exec(txt: &str) -> (b: bool)
    ensures
        b == sm_input_ok(txt@),
{
    proof {
        reveal_strlit("\r\n");
        reveal_strlit("\n");
        assert("\r\n"@ =~= seq!['\r', '\n']);
        assert("\n"@ =~= seq!['\n']);
    }
    let lf_template = replace_all(txt, "\r\n", "\n");
    let song_template = split_str(lf_template.as_str(), "\n");
    song_template.len() >= 2
}

} // verus!

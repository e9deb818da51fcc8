//! The two-line realigner for the bracket-everything dialect: the source
//! alternates a chord-only line with a lyric line, so each lyric line is
//! merged with the chord line above it, placing every chord at the word
//! boundary nearest its column. Section labels are dropped, except chorus
//! labels, which become the configured chorus marker preceded by a blank
//! line; chord spellings are normalized from the source's `B` notation to
//! the European `H` convention first.

use vstd::prelude::*;
use vstd::string::StrSliceExecFns;

use crate::align::{
    boundary_list, closest_boundary_spec, dist, push_chord_spec, space_adjacent_chords,
    space_chords, word_boundaries, Appendable,
};
use crate::lines::{
    clone_line, drop_empty_lines, join_lines, join_lines_exec, nonempty_lines_of, split_lines,
    text_of_line,
};
use crate::model::{line_text, LyricsWithChords, NodeView, Options, TextNode};
use crate::parse::{bracket_tokens, chord_list_nodes, parse_bracket, ParseError, Parsed};
use crate::strutil::{contains_chorus, is_chorus_label, replace_all, replace_pat, str_eq};

verus! {

/// The fixed column width every chord contributes when walking a chord line:
/// a legacy approximation of a typical chord-name width, kept as-is so that
/// alignment outcomes stay stable for existing content.
pub const CHORD_CHARACTER_WIDTH: usize = 3;

/// The raw pieces extracted from a source page before conversion.
pub struct RawParsedData {
    pub artist: String,
    pub song_name: String,
    pub tab_view: String,
}

/// The `B`-notation fix, a fixed substitution table: `B` becomes `H`, `Bb`
/// becomes `B`, `B#` becomes `C`; every other chord passes through.
pub open spec fn ug_fix_chord(c: Seq<char>) -> Seq<char> {
    if c == seq!['B'] {
        seq!['H']
    } else if c == seq!['B', 'b'] {
        seq!['B']
    } else if c == seq!['B', '#'] {
        seq!['C']
    } else {
        c
    }
}

/// The fix applied to every chord of a node sequence.
pub open spec fn ug_normalize_nodes(ns: Seq<NodeView>) -> Seq<NodeView> {
    ns.map_values(
        |n: NodeView|
            match n {
                NodeView::Chord(c) => NodeView::Chord(ug_fix_chord(c)),
                other => other,
            },
    )
}

/// Whether a line holds any label node.
pub open spec fn has_label(line: Seq<NodeView>) -> bool
    decreases line.len(),
{
    if line.len() == 0 {
        false
    } else {
        line[0] is Label || has_label(line.drop_first())
    }
}

/// Whether a line holds any chord node.
pub open spec fn has_chord(line: Seq<NodeView>) -> bool
    decreases line.len(),
{
    if line.len() == 0 {
        false
    } else {
        line[0] is Chord || has_chord(line.drop_first())
    }
}

/// The chord names of a line, in order, from index `i` on.
pub open spec fn chords_from(line: Seq<NodeView>, i: int) -> Seq<Seq<char>>
    decreases line.len() - i,
{
    if i < 0 || i >= line.len() {
        Seq::empty()
    } else if line[i] is Chord {
        seq![line[i]->Chord_0] + chords_from(line, i + 1)
    } else {
        chords_from(line, i + 1)
    }
}

/// A chord-only line collapsed to its chords, one space between each pair:
/// original spacing described column slots, not intended spacing.
pub open spec fn ug_collapse(line: Seq<NodeView>) -> Seq<NodeView> {
    chord_list_nodes(chords_from(line, 0))
}

/// A line the merge may walk: text and chords only.
pub open spec fn ug_prev_ok(line: Seq<NodeView>) -> bool
    decreases line.len(),
{
    if line.len() == 0 {
        true
    } else {
        (line[0] is Text || line[0] is Chord) && ug_prev_ok(line.drop_first())
    }
}

/// The walk over a chord line: text advances the column by its own length,
/// each chord is inserted into the working lyric line at the boundary
/// nearest the current column and advances it by the fixed chord width.
pub open spec fn ug_merge_walk(
    prev: Seq<NodeView>,
    j: int,
    target: int,
    acc: Seq<NodeView>,
    bs: Seq<int>,
) -> Seq<NodeView>
    decreases prev.len() - j,
{
    if j < 0 || j >= prev.len() {
        acc
    } else {
        match prev[j] {
            NodeView::Text(t) => ug_merge_walk(prev, j + 1, target + t.len(), acc, bs),
            NodeView::Chord(c) => ug_merge_walk(
                prev,
                j + 1,
                target + CHORD_CHARACTER_WIDTH as int,
                push_chord_spec(acc, closest_boundary_spec(bs, target), NodeView::Chord(c)),
                bs,
            ),
            _ => acc,
        }
    }
}

/// A lyric line merged with the chord line above it: the lyric text starts
/// as one text node, every chord of the chord line is spliced in at the
/// nearest word boundary, and adjacent chords get a separating space.
pub open spec fn ug_merge_pair(prev: Seq<NodeView>, cur: Seq<NodeView>) -> Seq<NodeView> {
    let text = line_text(cur);
    space_adjacent_chords(
        ug_merge_walk(prev, 0, 0, seq![NodeView::Text(text)], boundary_list(text)),
    )
}

/// The merged lines with the most recent one removed; nothing to remove
/// leaves them unchanged.
pub open spec fn pop_line(acc: Seq<Seq<NodeView>>) -> Seq<Seq<NodeView>> {
    if acc.len() == 0 {
        acc
    } else {
        acc.drop_last()
    }
}

/// One step of the realigner over line `i`, transforming the merged lines
/// accumulated so far: a non-chorus label line becomes a blank line; a
/// chorus label line becomes a blank line plus the configured marker; a line
/// with chords is collapsed to chords only; a chordless line after a chord
/// line replaces both entries by their merge.
pub open spec fn ug_step(
    lines: Seq<Seq<NodeView>>,
    i: int,
    acc: Seq<Seq<NodeView>>,
    chorus: Seq<char>,
) -> Seq<Seq<NodeView>> {
    let line = lines[i];
    let acc1 = acc.push(line);
    if has_label(line) && line[0] is Label && !is_chorus_label(line[0]->Label_0) {
        acc1.drop_last().push(Seq::empty())
    } else {
        let acc2 = if has_label(line) && line[0] is Label {
            acc1.drop_last().push(Seq::empty()).push(seq![NodeView::Label(chorus)])
        } else {
            acc1
        };
        if i == 0 {
            acc2
        } else if has_chord(line) {
            acc2.drop_last().push(ug_collapse(line))
        } else if !has_chord(lines[i - 1]) {
            acc2
        } else {
            pop_line(pop_line(acc2)).push(ug_merge_pair(lines[i - 1], line))
        }
    }
}

/// Whether step `i` merges line `i` with the line above it.
pub open spec fn ug_step_merges(lines: Seq<Seq<NodeView>>, i: int) -> bool {
    let line = lines[i];
    &&& 0 < i < lines.len()
    &&& !(has_label(line) && line[0] is Label && !is_chorus_label(line[0]->Label_0))
    &&& !has_chord(line)
    &&& has_chord(lines[i - 1])
}

/// Whether every merge from step `i` on walks a line of text and chords
/// only: a label inside a merged chord line is an invariant violation, not
/// an input error.
pub open spec fn ug_steps_ok(lines: Seq<Seq<NodeView>>, i: int) -> bool
    decreases lines.len() - i,
{
    if i < 0 || i >= lines.len() {
        true
    } else {
        (ug_step_merges(lines, i) ==> ug_prev_ok(lines[i - 1])) && ug_steps_ok(lines, i + 1)
    }
}

/// The realigner run over all lines from `i` on.
pub open spec fn ug_lines_loop(
    lines: Seq<Seq<NodeView>>,
    i: int,
    acc: Seq<Seq<NodeView>>,
    chorus: Seq<char>,
) -> Seq<Seq<NodeView>>
    decreases lines.len() - i,
{
    if i < 0 || i >= lines.len() {
        acc
    } else {
        ug_lines_loop(lines, i + 1, ug_step(lines, i, acc, chorus), chorus)
    }
}

/// The realigner run over all lines.
pub open spec fn ug_merged(lines: Seq<Seq<NodeView>>, chorus: Seq<char>) -> Seq<Seq<NodeView>> {
    ug_lines_loop(lines, 0, Seq::empty(), chorus)
}

/// The raw tab view prepared for parsing: line endings normalized and the
/// source's wrapper tags stripped.
pub open spec fn ug_prepared(raw: Seq<char>) -> Seq<char> {
    replace_pat(
        replace_pat(
            replace_pat(raw, seq!['\r', '\n'], seq!['\n']),
            seq!['[', 't', 'a', 'b', ']'],
            Seq::empty(),
        ),
        seq!['[', '/', 't', 'a', 'b', ']'],
        Seq::empty(),
    )
}

/// The nonempty lines of the parsed and normalized tab body.
pub open spec fn ug_lines(ns: Seq<NodeView>) -> Seq<Seq<NodeView>> {
    drop_empty_lines(split_lines(ug_normalize_nodes(ns)))
}

/// Whether the conversion accepts a successful parse: every merged chord
/// line holds text and chords only.
pub open spec fn ug_parsed_ok(p: Parsed) -> bool {
    match p {
        Parsed::Nodes(ns) => ug_steps_ok(ug_lines(ns), 0),
        Parsed::Fail(_, _) => true,
    }
}

/// Whether the conversion accepts a raw tab view.
pub open spec fn ug_input_ok(raw: Seq<char>) -> bool {
    ug_parsed_ok(bracket_tokens(ug_prepared(raw)))
}

/// The converted song body for a successfully parsed tab view.
pub open spec fn ug_result(ns: Seq<NodeView>, chorus: Seq<char>) -> Seq<NodeView> {
    join_lines(ug_merged(ug_lines(ns), chorus))
}

/// The chorus marker text an optional configuration selects.
pub open spec fn chosen_chorus_label(options: Option<Options>) -> Seq<char> {
    match options {
        Some(o) => o.chorus_label@,
        None => "\u{ae}:"@,
    }
}

/// The `B`-notation fix applied to every chord node.
fn ug_normalize(nodes: &Vec<TextNode>) -> (r: Vec<TextNode>)
    ensures
        r.deep_view() == ug_normalize_nodes(nodes.deep_view()),
{
    let ghost nv = nodes.deep_view();
    let ghost f = |n: NodeView|
        match n {
            NodeView::Chord(c) => NodeView::Chord(ug_fix_chord(c)),
            other => other,
        };
    let mut out: Vec<TextNode> = Vec::new();
    let mut i: usize = 0;
    proof {
        assert(out.deep_view() =~~= nv.take(0).map_values(f));
    }
    while i < nodes.len()
        invariant
            i <= nodes.len(),
            nv == nodes.deep_view(),
            f == (|n: NodeView|
                match n {
                    NodeView::Chord(c) => NodeView::Chord(ug_fix_chord(c)),
                    other => other,
                }),
            out.deep_view() == nv.take(i as int).map_values(f),
        decreases nodes.len() - i,
    {
        let ghost pre = out.deep_view();
        let node = nodes[i].clone();
        proof {
            assert(node@ == nv[i as int]);
        }
        match node {
            TextNode::Chord(c) => {
                proof {
                    reveal_strlit("B");
                    reveal_strlit("Bb");
                    reveal_strlit("B#");
                    reveal_strlit("H");
                    reveal_strlit("C");
                    assert("B"@ =~= seq!['B']);
                    assert("Bb"@ =~= seq!['B', 'b']);
                    assert("B#"@ =~= seq!['B', '#']);
                    assert("H"@ =~= seq!['H']);
                    assert("C"@ =~= seq!['C']);
                }
                let fixed: TextNode = if str_eq(c.as_str(), "B") {
                    TextNode::Chord("H".to_owned())
                } else if str_eq(c.as_str(), "Bb") {
                    TextNode::Chord("B".to_owned())
                } else if str_eq(c.as_str(), "B#") {
                    TextNode::Chord("C".to_owned())
                } else {
                    TextNode::Chord(c)
                };
                proof {
                    assert(fixed@ == f(nv[i as int]));
                }
                out.push(fixed);
            },
            other => {
                out.push(other);
            },
        }
        proof {
            assert(out.deep_view() =~~= pre.push(f(nv[i as int])));
            assert(nv.take(i + 1).map_values(f) =~~= nv.take(i as int).map_values(f).push(
                f(nv[i as int]),
            ));
        }
        i = i + 1;
    }
    proof {
        assert(nv.take(nodes.len() as int) =~~= nv);
    }
    out
}

/// Whether a line holds any label node.
fn line_has_label(line: &Vec<TextNode>) -> (b: bool)
    ensures
        b == has_label(line.deep_view()),
{
    let ghost lv = line.deep_view();
    let mut i: usize = 0;
    proof {
        assert(lv.skip(0) =~~= lv);
    }
    while i < line.len()
        invariant
            i <= line.len(),
            lv == line.deep_view(),
            has_label(lv) == has_label(lv.skip(i as int)),
        decreases line.len() - i,
    {
        proof {
            assert(lv.skip(i as int)[0] == lv[i as int]);
            assert(lv.skip(i as int).drop_first() =~~= lv.skip(i + 1));
            assert(lv[i as int] == line@[i as int]@);
        }
        if matches!(line[i], TextNode::Label(_)) {
            return true;
        }
        i = i + 1;
    }
    proof {
        assert(lv.skip(line.len() as int) =~~= Seq::<NodeView>::empty());
    }
    false
}

/// Whether a line holds any chord node.
fn line_has_chord(line: &Vec<TextNode>) -> (b: bool)
    ensures
        b == has_chord(line.deep_view()),
{
    let ghost lv = line.deep_view();
    let mut i: usize = 0;
    proof {
        assert(lv.skip(0) =~~= lv);
    }
    while i < line.len()
        invariant
            i <= line.len(),
            lv == line.deep_view(),
            has_chord(lv) == has_chord(lv.skip(i as int)),
        decreases line.len() - i,
    {
        proof {
            assert(lv.skip(i as int)[0] == lv[i as int]);
            assert(lv.skip(i as int).drop_first() =~~= lv.skip(i + 1));
            assert(lv[i as int] == line@[i as int]@);
        }
        if matches!(line[i], TextNode::Chord(_)) {
            return true;
        }
        i = i + 1;
    }
    proof {
        assert(lv.skip(line.len() as int) =~~= Seq::<NodeView>::empty());
    }
    false
}

/// Collapses a chord line to its chords only, one space between each pair.
fn collapse_chords(line: &Vec<TextNode>) -> (r: Vec<TextNode>)
    ensures
        r.deep_view() == ug_collapse(line.deep_view()),
{
    let ghost lv = line.deep_view();
    let mut names: Vec<String> = Vec::new();
    let mut i: usize = 0;
    proof {
        assert(names.deep_view() + chords_from(lv, 0) =~~= chords_from(lv, 0));
    }
    while i < line.len()
        invariant
            i <= line.len(),
            lv == line.deep_view(),
            chords_from(lv, 0) == names.deep_view() + chords_from(lv, i as int),
        decreases line.len() - i,
    {
        let ghost pre = names.deep_view();
        proof {
            assert(lv[i as int] == line@[i as int]@);
        }
        match &line[i] {
            TextNode::Chord(c) => {
                names.push(c.clone());
                proof {
                    assert(names.deep_view() =~~= pre.push(lv[i as int]->Chord_0));
                    assert(pre + (seq![lv[i as int]->Chord_0] + chords_from(lv, i + 1)) =~~= (pre
                        + seq![lv[i as int]->Chord_0]) + chords_from(lv, i + 1));
                }
            },
            _ => {},
        }
        i = i + 1;
    }
    proof {
        assert(chords_from(lv, line.len() as int) =~~= Seq::<Seq<char>>::empty());
        assert(names.deep_view() + Seq::<Seq<char>>::empty() =~~= names.deep_view());
    }
    let ghost p = names.deep_view();
    let mut out: Vec<TextNode> = Vec::new();
    let mut k: usize = 0;
    proof {
        assert(chord_list_nodes(p.take(0)) =~= Seq::<NodeView>::empty()) by {
            assert(p.take(0) =~~= Seq::<Seq<char>>::empty());
        }
        assert(out.deep_view() =~~= chord_list_nodes(p.take(0)));
    }
    while k < names.len()
        invariant
            k <= names.len(),
            p == names.deep_view(),
            out.deep_view() == chord_list_nodes(p.take(k as int)),
        decreases names.len() - k,
    {
        let ghost pre = out.deep_view();
        if k > 0 {
            out.push(TextNode::Text(" ".to_owned()));
            out.push(TextNode::Chord(names[k].clone()));
            proof {
                reveal_strlit(" ");
                assert(" "@ =~= seq![' ']);
                crate::parse::lemma_chord_list_take(p, k as int);
                assert(out.deep_view() =~~= pre + seq![
                    NodeView::Text(seq![' ']),
                    NodeView::Chord(p[k as int]),
                ]);
                assert(out.deep_view() =~~= chord_list_nodes(p.take(k + 1)));
            }
        } else {
            out.push(TextNode::Chord(names[k].clone()));
            proof {
                crate::parse::lemma_chord_list_take(p, 0);
                assert(out.deep_view() =~~= pre + seq![NodeView::Chord(p[0])]);
                assert(out.deep_view() =~~= chord_list_nodes(p.take(1)));
            }
        }
        k = k + 1;
    }
    proof {
        assert(p.take(names.len() as int) =~~= p);
    }
    out
}

/// Picks the candidate boundary nearest to a column that may exceed the
/// lyric line's own length by many chord widths.
fn closest_boundary_wide(bs: &Vec<usize>, target: u128) -> (r: usize)
    requires
        bs.len() >= 1,
    ensures
        r as int == closest_boundary_spec(bs@.map_values(|u: usize| u as int), target as int),
{
    let ghost bv = bs@.map_values(|u: usize| u as int);
    let mut best: usize = bs[0];
    let mut best_d: u128 = if bs[0] as u128 >= target {
        bs[0] as u128 - target
    } else {
        target - bs[0] as u128
    };
    let mut i: usize = 1;
    proof {
        assert(bv.skip(1) =~= bv.drop_first());
    }
    while i < bs.len()
        invariant
            1 <= i <= bs.len(),
            bv == bs@.map_values(|u: usize| u as int),
            best_d as int == dist(best as int, target as int),
            closest_boundary_spec(bv, target as int) == crate::align::closest_from(
                bv.skip(i as int),
                target as int,
                best as int,
            ),
        decreases bs.len() - i,
    {
        let cand = bs[i];
        let d: u128 = if cand as u128 >= target {
            cand as u128 - target
        } else {
            target - cand as u128
        };
        proof {
            assert(bv.skip(i as int)[0] == bv[i as int]);
            assert(bv.skip(i as int).drop_first() =~= bv.skip(i + 1));
        }
        if d < best_d {
            best = cand;
            best_d = d;
        }
        i = i + 1;
    }
    proof {
        assert(bv.skip(bs.len() as int) =~= Seq::<int>::empty());
    }
    best
}

/// Merges a lyric line with the chord line above it.
#[verifier::loop_isolation(false)]
fn ug_merge_pair_exec(prev: &Vec<TextNode>, cur: &Vec<TextNode>) -> (r: Vec<TextNode>)
    requires
        ug_prev_ok(prev.deep_view()),
    ensures
        r.deep_view() == ug_merge_pair(prev.deep_view(), cur.deep_view()),
{
    let ghost pv = prev.deep_view();
    let ghost cv = cur.deep_view();
    let prev_text = text_of_line(prev);
    let prev_total = prev_text.unicode_len();
    let text = text_of_line(cur);
    let bs = word_boundaries(text.as_str());
    let ghost bsv = bs@.map_values(|u: usize| u as int);
    let mut merged_line: Vec<TextNode> = Vec::new();
    merged_line.push(TextNode::Text(text));
    proof {
        assert(merged_line.deep_view() =~~= seq![NodeView::Text(line_text(cv))]);
    }
    let ghost acc0 = merged_line.deep_view();
    let mut target: u128 = 0;
    let mut j: usize = 0;
    let ghost mut cc: int = 0;
    proof {
        assert(pv.take(0) =~~= Seq::<NodeView>::empty());
    }
    while j < prev.len()
        invariant
            j <= prev.len(),
            cc <= j,
            target as int == line_text(pv.take(j as int)).len() + 3 * cc,
            ug_merge_walk(pv, 0, 0, acc0, bsv) == ug_merge_walk(
                pv,
                j as int,
                target as int,
                merged_line.deep_view(),
                bsv,
            ),
        decreases prev.len() - j,
    {
        let ghost acc_pre = merged_line.deep_view();
        proof {
            assert(pv[j as int] == prev@[j as int]@);
            assert(ug_prev_ok_at(pv, j as int)) by {
                lemma_ug_prev_ok_index(pv, j as int);
            }
            assert(pv.take(j + 1) =~~= pv.take(j as int).push(pv[j as int]));
            crate::lines::lemma_line_text_snoc(pv.take(j as int), pv[j as int]);
            assert(pv =~~= pv.take(j + 1) + pv.skip(j + 1));
            crate::supermusic::lemma_line_text_append(pv.take(j + 1), pv.skip(j + 1));
            assert(line_text(pv.take(j + 1)).len() <= prev_total);
        }
        match &prev[j] {
            TextNode::Text(k) => {
                let tl = k.unicode_len();
                proof {
                    assert(pv[j as int]->Text_0.len() == tl);
                    assert(target as int + tl as int <= prev_total as int + 3 * (j as int));
                }
                target = target + tl as u128;
            },
            TextNode::Chord(ch) => {
                let pos_wide = closest_boundary_wide(&bs, target);
                let node = TextNode::Chord(ch.clone());
                proof {
                    assert(node@ == NodeView::Chord(pv[j as int]->Chord_0));
                }
                merged_line.push_chord(pos_wide, node);
                proof {
                    assert(merged_line.deep_view() == push_chord_spec(
                        acc_pre,
                        closest_boundary_spec(bsv, target as int),
                        NodeView::Chord(pv[j as int]->Chord_0),
                    ));
                    assert(target as int + 3 <= prev_total as int + 3 * (j as int) + 3);
                    cc = cc + 1;
                }
                target = target + CHORD_CHARACTER_WIDTH as u128;
            },
            _ => {
                proof {
                    assert(false);
                }
            },
        }
        j = j + 1;
    }
    proof {
        assert(ug_merge_walk(pv, prev.len() as int, target as int, merged_line.deep_view(), bsv)
            == merged_line.deep_view());
    }
    space_chords(&merged_line)
}

/// One realigner step over line `i`, updating the merged lines in place.
#[verifier::loop_isolation(false)]
fn ug_step_exec(
    merged: &mut Vec<Vec<TextNode>>,
    lines: &Vec<Vec<TextNode>>,
    i: usize,
    chorus_label: &String,
)
    requires
        i < lines@.len(),
        ug_step_merges(lines.deep_view(), i as int) ==> ug_prev_ok(
            lines.deep_view()[i as int - 1],
        ),
    ensures
        final(merged).deep_view() == ug_step(
            lines.deep_view(),
            i as int,
            old(merged).deep_view(),
            chorus_label@,
        ),
{
    let ghost lsv = lines.deep_view();
    let ghost acc0 = merged.deep_view();
    let ghost line_v = lsv[i as int];
    let ghost acc1 = acc0.push(line_v);
    let line = &lines[i];
    let copy = clone_line(line);
    merged.push(copy);
    proof {
        assert(merged.deep_view() =~~= acc1);
    }
    let hl = line_has_label(line);
    if hl {
        proof {
            assert(line_v.len() > 0);
            assert(line_v[0] == line@[0]@);
        }
        match &line[0] {
            TextNode::Label(l) => {
                let chorus = contains_chorus(l.as_str());
                proof {
                    assert(l@ == line_v[0]->Label_0);
                }
                if !chorus {
                    let _ = merged.pop();
                    merged.push(Vec::new());
                    proof {
                        assert(merged.deep_view() =~~= acc1.drop_last().push(
                            Seq::<NodeView>::empty(),
                        ));
                        assert(merged.deep_view() =~~= ug_step(lsv, i as int, acc0, chorus_label@));
                    }
                    return ;
                } else {
                    let _ = merged.pop();
                    merged.push(Vec::new());
                    let mut lab: Vec<TextNode> = Vec::new();
                    lab.push(TextNode::Label(chorus_label.clone()));
                    merged.push(lab);
                    proof {
                        assert(merged.deep_view() =~~= acc1.drop_last().push(
                            Seq::<NodeView>::empty(),
                        ).push(seq![NodeView::Label(chorus_label@)]));
                    }
                }
            },
            _ => {},
        }
    }
    let ghost acc2 = if has_label(line_v) && line_v[0] is Label {
        acc1.drop_last().push(Seq::<NodeView>::empty()).push(seq![NodeView::Label(chorus_label@)])
    } else {
        acc1
    };
    proof {
        assert(merged.deep_view() =~~= acc2);
    }
    if i == 0 {
        proof {
            assert(merged.deep_view() =~~= ug_step(lsv, 0, acc0, chorus_label@));
        }
        return ;
    }
    let hc = line_has_chord(line);
    if hc {
        let collapsed = collapse_chords(line);
        let _ = merged.pop();
        merged.push(collapsed);
        proof {
            assert(merged.deep_view() =~~= acc2.drop_last().push(ug_collapse(line_v)));
            assert(merged.deep_view() =~~= ug_step(lsv, i as int, acc0, chorus_label@));
        }
        return ;
    }
    let prev = &lines[i - 1];
    proof {
        assert(prev.deep_view() == lsv[i as int - 1]);
    }
    let phc = line_has_chord(prev);
    if !phc {
        proof {
            assert(merged.deep_view() =~~= ug_step(lsv, i as int, acc0, chorus_label@));
        }
        return ;
    }
    let ghost acc3 = merged.deep_view();
    let _ = merged.pop();
    let ghost acc4 = merged.deep_view();
    proof {
        assert(acc4 =~~= pop_line(acc3));
    }
    let _ = merged.pop();
    proof {
        assert(merged.deep_view() =~~= pop_line(pop_line(acc3)));
        assert(ug_step_merges(lsv, i as int));
        assert(ug_prev_ok(lsv[i as int - 1]));
    }
    let ghost acc5 = merged.deep_view();
    let m = ug_merge_pair_exec(prev, line);
    merged.push(m);
    proof {
        assert(merged.deep_view() =~~= acc5.push(ug_merge_pair(lsv[i as int - 1], line_v)));
        assert(merged.deep_view() =~~= ug_step(lsv, i as int, acc0, chorus_label@));
    }
}

/// The bracket-everything source.
pub struct UltimateGuitar;

impl UltimateGuitar {
    /// Converts raw page data into a realigned song: the tab body is
    /// stripped of wrapper tags, tokenized, its chords normalized from `B`
    /// notation, and each lyric line merged with the chord line above it;
    /// labels other than chorus markers are dropped. A malformed body yields
    /// the parse failure unchanged.
    pub fn get(data: RawParsedData, options: Option<Options>) -> (r: Result<
        LyricsWithChords,
        ParseError,
    >)
        requires
            ug_input_ok(data.tab_view@),
        ensures
            match r {
                Ok(l) => {
                    &&& bracket_tokens(ug_prepared(data.tab_view@)) is Nodes
                    &&& l.text.deep_view() == ug_result(
                        bracket_tokens(ug_prepared(data.tab_view@))->Nodes_0,
                        chosen_chorus_label(options),
                    )
                    &&& l.artist == data.artist
                    &&& l.song_name == data.song_name
                },
                Err(e) => bracket_tokens(ug_prepared(data.tab_view@)) == Parsed::Fail(
                    e.rest@,
                    e.rule,
                ),
            },
    {
        let user_options = match options {
            Some(o) => o,
            None => Options::default(),
        };
        proof {
            assert(user_options.chorus_label@ == chosen_chorus_label(options));
            reveal_strlit("\r\n");
            reveal_strlit("\n");
            reveal_strlit("[tab]");
            reveal_strlit("[/tab]");
            reveal_strlit("");
            assert("\r\n"@ =~= seq!['\r', '\n']);
            assert("\n"@ =~= seq!['\n']);
            assert("[tab]"@ =~= seq!['[', 't', 'a', 'b', ']']);
            assert("[/tab]"@ =~= seq!['[', '/', 't', 'a', 'b', ']']);
            assert(""@ =~= Seq::<char>::empty());
        }
        let tab_lf = replace_all(data.tab_view.as_str(), "\r\n", "\n");
        let tab_open_stripped = replace_all(tab_lf.as_str(), "[tab]", "");
        let tab_data = replace_all(tab_open_stripped.as_str(), "[/tab]", "");
        proof {
            assert(tab_data@ == ug_prepared(data.tab_view@));
        }
        let nodes = match parse_bracket(tab_data.as_str()) {
            Ok(ns) => ns,
            Err(e) => {
                return Err(e);
            },
        };
        let ghost ns = nodes.deep_view();
        let normalized = ug_normalize(&nodes);
        let lines = nonempty_lines_of(&normalized);
        let ghost linesv = lines.deep_view();
        proof {
            assert(linesv == ug_lines(ns));
        }
        let mut merged: Vec<Vec<TextNode>> = Vec::new();
        let mut i: usize = 0;
        proof {
            assert(merged.deep_view() =~~= Seq::<Seq<NodeView>>::empty());
        }
        while i < lines.len()
            invariant
                i <= lines.len(),
                linesv == lines.deep_view(),
                ug_steps_ok(linesv, i as int),
                ug_lines_loop(linesv, i as int, merged.deep_view(), user_options.chorus_label@)
                    == ug_merged(linesv, user_options.chorus_label@),
            decreases lines.len() - i,
        {
            ug_step_exec(&mut merged, &lines, i, &user_options.chorus_label);
            i = i + 1;
        }
        let joined = join_lines_exec(merged);
        Ok(LyricsWithChords::new(joined, data.artist, data.song_name))
    }
}

/// Whether the conversion accepts a raw tab view: used by callers to test
/// [`UltimateGuitar::get`]'s precondition before the call.
#[verifier::loop_isolation(false)]
pub fn ug_input_ok_exec(tab_view: &str) -> (b: bool)
    ensures
        b == ug_input_ok(tab_view@),
{
    proof {
        reveal_strlit("\r\n");
        reveal_strlit("\n");
        reveal_strlit("[tab]");
        reveal_strlit("[/tab]");
        reveal_strlit("");
        assert("\r\n"@ =~= seq!['\r', '\n']);
        assert("\n"@ =~= seq!['\n']);
        assert("[tab]"@ =~= seq!['[', 't', 'a', 'b', ']']);
        assert("[/tab]"@ =~= seq!['[', '/', 't', 'a', 'b', ']']);
        assert(""@ =~= Seq::<char>::empty());
    }
    let tab_lf = replace_all(tab_view, "\r\n", "\n");
    let tab_open_stripped = replace_all(tab_lf.as_str(), "[tab]", "");
    let tab_data = replace_all(tab_open_stripped.as_str(), "[/tab]", "");
    proof {
        assert(tab_data@ == ug_prepared(tab_view@));
    }
    let nodes = match parse_bracket(tab_data.as_str()) {
        Ok(ns) => ns,
        Err(_) => {
            return true;
        },
    };
    let ghost ns = nodes.deep_view();
    let normalized = ug_normalize(&nodes);
    let lines = nonempty_lines_of(&normalized);
    let ghost linesv = lines.deep_view();
    proof {
        assert(linesv == ug_lines(ns));
    }
    let mut i: usize = 0;
    while i < lines.len()
        invariant
            i <= lines.len(),
            linesv == lines.deep_view(),
            ug_steps_ok(linesv, 0) == ug_steps_ok(linesv, i as int),
        decreases lines.len() - i,
    {
        let merges = if i == 0 {
            false
        } else {
            let line = &lines[i];
            let hl = line_has_label(line);
            let label_stop = if hl {
                proof {
                    assert(linesv[i as int].len() > 0);
                    assert(linesv[i as int][0] == line@[0]@);
                }
                match &line[0] {
                    TextNode::Label(l) => !contains_chorus(l.as_str()),
                    _ => false,
                }
            } else {
                false
            };
            !label_stop && !line_has_chord(line) && line_has_chord(&lines[i - 1])
        };
        proof {
            assert(merges == ug_step_merges(linesv, i as int));
        }
        if merges {
            let ok = line_all_text_or_chord(&lines[i - 1]);
            if !ok {
                proof {
                    assert(!ug_steps_ok(linesv, i as int));
                }
                return false;
            }
        }
        proof {
            if merges {
                assert(ug_prev_ok(linesv[i as int - 1]));
            }
            assert(ug_steps_ok(linesv, i as int) == ug_steps_ok(linesv, i + 1));
        }
        i = i + 1;
    }
    proof {
        assert(ug_steps_ok(linesv, lines.len() as int));
    }
    true
}

/// Whether every node of a line is text or a chord.
fn line_all_text_or_chord(line: &Vec<TextNode>) -> (b: bool)
    ensures
        b == ug_prev_ok(line.deep_view()),
{
    let ghost lv = line.deep_view();
    let mut i: usize = 0;
    proof {
        assert(lv.skip(0) =~~= lv);
    }
    while i < line.len()
        invariant
            i <= line.len(),
            lv == line.deep_view(),
            ug_prev_ok(lv) == ug_prev_ok(lv.skip(i as int)),
        decreases line.len() - i,
    {
        proof {
            assert(lv.skip(i as int)[0] == lv[i as int]);
            assert(lv.skip(i as int).drop_first() =~~= lv.skip(i + 1));
            assert(lv[i as int] == line@[i as int]@);
        }
        let ok = matches!(line[i], TextNode::Text(_)) || matches!(line[i], TextNode::Chord(_));
        if !ok {
            return false;
        }
        i = i + 1;
    }
    proof {
        assert(lv.skip(line.len() as int) =~~= Seq::<NodeView>::empty());
    }
    true
}

/// Whether the node at `i` is text or a chord.
pub open spec fn ug_prev_ok_at(line: Seq<NodeView>, i: int) -> bool {
    line[i] is Text || line[i] is Chord
}

/// A line of text and chords only is so at every index.
pub proof fn lemma_ug_prev_ok_index(line: Seq<NodeView>, i: int)
    requires
        ug_prev_ok(line),
        0 <= i < line.len(),
    ensures
        ug_prev_ok_at(line, i),
    decreases i,
{
    if i == 0 {
    } else {
        assert(line.drop_first()[i - 1] == line[i]);
        lemma_ug_prev_ok_index(line.drop_first(), i - 1);
    }
}

} // verus!

//! The chord realignment primitives: word-boundary detection over a line's
//! text, nearest-boundary selection with a stable tie-break, and the
//! insert-chord-at-offset operation shared by both dialects.

use vstd::prelude::*;
use vstd::string::StrSliceExecFns;

use crate::model::{NodeView, TextNode};
use crate::strutil::all_space;

verus! {

/// A candidate chord position in a line's text: the start or the end of a
/// space-delimited token. Both ends of the text qualify, as does every
/// offset next to a space (consecutive spaces delimit empty tokens, so every
/// such offset is a token start or end).
pub open spec fn is_boundary(text: Seq<char>, o: int) -> bool {
    &&& 0 <= o <= text.len()
    &&& (o == 0 || o == text.len() || text[o] == ' ' || text[o - 1] == ' ')
}

/// The boundaries at offset `o` or later, in ascending order.
pub open spec fn boundaries_from(text: Seq<char>, o: int) -> Seq<int>
    decreases text.len() - o + 1,
{
    if o < 0 || o > text.len() {
        Seq::empty()
    } else if is_boundary(text, o) {
        seq![o] + boundaries_from(text, o + 1)
    } else {
        boundaries_from(text, o + 1)
    }
}

/// All word boundaries of a line's text, in ascending order.
pub open spec fn boundary_list(text: Seq<char>) -> Seq<int> {
    boundaries_from(text, 0)
}

pub proof fn lemma_boundaries_from_props(text: Seq<char>, o: int)
    requires
        0 <= o <= text.len(),
    ensures
        forall|k: int|
            0 <= k < boundaries_from(text, o).len() ==> o <= #[trigger] boundaries_from(text, o)[k]
                && is_boundary(text, boundaries_from(text, o)[k]),
        forall|k: int, l: int|
            0 <= k < l < boundaries_from(text, o).len() ==> boundaries_from(text, o)[k]
                < boundaries_from(text, o)[l],
        forall|b: int|
            o <= b && is_boundary(text, b) ==> boundaries_from(text, o).contains(b),
        boundaries_from(text, o).len() >= 1 || o > 0,
    decreases text.len() - o + 1,
{
    if o == text.len() {
        assert(is_boundary(text, o));
        assert(boundaries_from(text, o + 1) =~= Seq::<int>::empty());
        assert(boundaries_from(text, o) =~= seq![o]);
        assert forall|b: int| o <= b && is_boundary(text, b) implies boundaries_from(
            text,
            o,
        ).contains(b) by {
            assert(b == o);
            assert(boundaries_from(text, o)[0] == b);
        }
    } else {
        lemma_boundaries_from_props(text, o + 1);
        let rest = boundaries_from(text, o + 1);
        if is_boundary(text, o) {
            let cur = boundaries_from(text, o);
            assert(cur == seq![o] + rest);
            assert forall|b: int| o <= b && is_boundary(text, b) implies cur.contains(b) by {
                if b == o {
                    assert(cur[0] == b);
                } else {
                    assert(rest.contains(b));
                    let k = choose|k: int| 0 <= k < rest.len() && rest[k] == b;
                    assert(cur[k + 1] == b);
                }
            }
            if o == 0 {
                assert(is_boundary(text, 0));
            }
        } else {
            assert(o != 0 && o != text.len());
            if o == 0 {
                assert(false);
            }
        }
    }
}

/// Every boundary list contains offset zero and is never empty.
pub proof fn lemma_boundary_list_nonempty(text: Seq<char>)
    ensures
        boundary_list(text).len() >= 1,
        boundary_list(text).contains(0),
{
    lemma_boundaries_from_props(text, 0);
    assert(is_boundary(text, 0));
}

/// Computes the ascending list of word boundaries of `text`.
pub fn word_boundaries(text: &str) -> (r: Vec<usize>)
    ensures
        r@.map_values(|u: usize| u as int) == boundary_list(text@),
        r.len() >= 1,
{
    let n = text.unicode_len();
    let mut out: Vec<usize> = Vec::new();
    let mut o: usize = 0;
    proof {
        assert(out@.map_values(|u: usize| u as int) + boundaries_from(text@, 0) =~= boundaries_from(
            text@,
            0,
        ));
    }
    while o < n
        invariant
            o <= n,
            n == text@.len(),
            boundary_list(text@) == out@.map_values(|u: usize| u as int) + boundaries_from(
                text@,
                o as int,
            ),
        decreases n - o,
    {
        let ghost pre = out@.map_values(|u: usize| u as int);
        let b = if o == 0 {
            true
        } else {
            text.get_char(o) == ' ' || text.get_char(o - 1) == ' '
        };
        proof {
            assert(b == is_boundary(text@, o as int));
        }
        if b {
            out.push(o);
            proof {
                assert(out@.map_values(|u: usize| u as int) =~= pre.push(o as int));
                assert(pre.push(o as int) + boundaries_from(text@, o + 1) =~= pre + (seq![o as int]
                    + boundaries_from(text@, o + 1)));
            }
        }
        o = o + 1;
    }
    let ghost pre = out@.map_values(|u: usize| u as int);
    out.push(n);
    proof {
        assert(is_boundary(text@, n as int));
        assert(boundaries_from(text@, n + 1) =~= Seq::<int>::empty());
        assert(boundaries_from(text@, n as int) =~= seq![n as int]);
        assert(out@.map_values(|u: usize| u as int) =~= pre.push(n as int));
        assert(pre.push(n as int) =~= pre + seq![n as int]);
        lemma_boundary_list_nonempty(text@);
    }
    out
}

/// The distance between a candidate boundary and a chord's computed column.
pub open spec fn dist(a: int, b: int) -> int {
    if a >= b {
        a - b
    } else {
        b - a
    }
}

/// A stable minimum scan: the current best is replaced only by a strictly
/// closer candidate, so among equally close candidates the first wins.
pub open spec fn closest_from(bs: Seq<int>, target: int, best: int) -> int
    decreases bs.len(),
{
    if bs.len() == 0 {
        best
    } else if dist(bs[0], target) < dist(best, target) {
        closest_from(bs.drop_first(), target, bs[0])
    } else {
        closest_from(bs.drop_first(), target, best)
    }
}

/// The candidate boundary minimizing the distance to `target`; on a tie the
/// earliest (hence lowest) boundary wins.
pub open spec fn closest_boundary_spec(bs: Seq<int>, target: int) -> int {
    closest_from(bs.drop_first(), target, bs[0])
}

proof fn lemma_closest_from_sorted(bs: Seq<int>, target: int, best: int)
    requires
        forall|k: int, l: int| 0 <= k < l < bs.len() ==> bs[k] < bs[l],
        forall|k: int| 0 <= k < bs.len() ==> best < #[trigger] bs[k],
    ensures
        ({
            let c = closest_from(bs, target, best);
            &&& c == best || bs.contains(c)
            &&& dist(c, target) <= dist(best, target)
            &&& dist(best, target) == dist(c, target) ==> c == best
            &&& forall|j: int| 0 <= j < bs.len() ==> dist(c, target) <= dist(#[trigger] bs[j], target)
            &&& forall|j: int|
                0 <= j < bs.len() && dist(#[trigger] bs[j], target) == dist(c, target) ==> c
                    <= bs[j]
        }),
    decreases bs.len(),
{
    if bs.len() == 0 {
    } else {
        let rest = bs.drop_first();
        let c = closest_from(bs, target, best);
        assert(forall|j: int| 0 <= j < rest.len() ==> rest[j] == bs[j + 1]);
        if dist(bs[0], target) < dist(best, target) {
            lemma_closest_from_sorted(rest, target, bs[0]);
            assert(c == closest_from(rest, target, bs[0]));
            if c != bs[0] {
                let k = choose|k: int| 0 <= k < rest.len() && rest[k] == c;
                assert(bs[k + 1] == c);
                assert(bs.contains(c));
            } else {
                assert(bs[0] == c);
                assert(bs.contains(c));
            }
            assert(dist(c, target) <= dist(bs[0], target));
            assert forall|j: int| 0 <= j < bs.len() implies dist(c, target) <= dist(
                #[trigger] bs[j],
                target,
            ) by {
                if j > 0 {
                    assert(rest[j - 1] == bs[j]);
                    assert(dist(c, target) <= dist(rest[j - 1], target));
                }
            }
            assert forall|j: int|
                0 <= j < bs.len() && dist(#[trigger] bs[j], target) == dist(c, target) implies c
                <= bs[j] by {
                if j == 0 {
                    assert(dist(bs[0], target) == dist(c, target));
                    assert(c == bs[0]);
                } else {
                    assert(rest[j - 1] == bs[j]);
                    assert(dist(rest[j - 1], target) == dist(c, target));
                    assert(c <= rest[j - 1]);
                }
            }
        } else {
            lemma_closest_from_sorted(rest, target, best);
            assert(c == closest_from(rest, target, best));
            if c != best {
                let k = choose|k: int| 0 <= k < rest.len() && rest[k] == c;
                assert(bs[k + 1] == c);
                assert(bs.contains(c));
            }
            assert forall|j: int| 0 <= j < bs.len() implies dist(c, target) <= dist(
                #[trigger] bs[j],
                target,
            ) by {
                if j == 0 {
                    assert(dist(c, target) <= dist(best, target));
                    assert(dist(best, target) <= dist(bs[0], target));
                } else {
                    assert(rest[j - 1] == bs[j]);
                    assert(dist(c, target) <= dist(rest[j - 1], target));
                }
            }
            assert forall|j: int|
                0 <= j < bs.len() && dist(#[trigger] bs[j], target) == dist(c, target) implies c
                <= bs[j] by {
                if j == 0 {
                    assert(dist(c, target) <= dist(best, target) <= dist(bs[0], target));
                    assert(dist(best, target) == dist(c, target));
                    assert(c == best);
                    assert(best < bs[0]);
                } else {
                    assert(rest[j - 1] == bs[j]);
                    assert(dist(rest[j - 1], target) == dist(c, target));
                    assert(c <= rest[j - 1]);
                }
            }
        }
    }
}

/// The chosen boundary is a candidate, no candidate is closer, and on an
/// ascending candidate list an exact tie is broken toward the lower
/// boundary.
pub proof fn lemma_closest_props(bs: Seq<int>, target: int)
    requires
        bs.len() >= 1,
        forall|k: int, l: int| 0 <= k < l < bs.len() ==> bs[k] < bs[l],
    ensures
        ({
            let c = closest_boundary_spec(bs, target);
            &&& bs.contains(c)
            &&& forall|j: int| 0 <= j < bs.len() ==> dist(c, target) <= dist(#[trigger] bs[j], target)
            &&& forall|j: int|
                0 <= j < bs.len() && dist(#[trigger] bs[j], target) == dist(c, target) ==> c
                    <= bs[j]
        }),
{
    let rest = bs.drop_first();
    let c = closest_boundary_spec(bs, target);
    assert(forall|j: int| 0 <= j < rest.len() ==> rest[j] == bs[j + 1]);
    lemma_closest_from_sorted(rest, target, bs[0]);
    if c == bs[0] {
        assert(bs.contains(c)) by {
            assert(bs[0] == c);
        }
    } else {
        let k = choose|k: int| 0 <= k < rest.len() && rest[k] == c;
        assert(bs[k + 1] == c);
        assert(bs.contains(c));
    }
    assert forall|j: int| 0 <= j < bs.len() implies dist(c, target) <= dist(
        #[trigger] bs[j],
        target,
    ) by {
        if j == 0 {
            assert(dist(c, target) <= dist(bs[0], target));
        } else {
            assert(rest[j - 1] == bs[j]);
            assert(dist(c, target) <= dist(rest[j - 1], target));
        }
    }
    assert forall|j: int|
        0 <= j < bs.len() && dist(#[trigger] bs[j], target) == dist(c, target) implies c
        <= bs[j] by {
        if j == 0 {
            assert(dist(bs[0], target) == dist(c, target));
            assert(c == bs[0]);
        } else {
            assert(rest[j - 1] == bs[j]);
            assert(dist(rest[j - 1], target) == dist(c, target));
            assert(c <= rest[j - 1]);
        }
    }
}

/// Picks the candidate boundary nearest to `target`; the first candidate
/// wins a tie, so on an ascending list the lower boundary wins.
pub fn closest_boundary(bs: &Vec<usize>, target: usize) -> (r: usize)
    requires
        bs.len() >= 1,
    ensures
        r as int == closest_boundary_spec(bs@.map_values(|u: usize| u as int), target as int),
{
    let ghost bv = bs@.map_values(|u: usize| u as int);
    let mut best: usize = bs[0];
    let mut best_d: usize = if bs[0] >= target {
        bs[0] - target
    } else {
        target - bs[0]
    };
    let mut i: usize = 1;
    proof {
        assert(bv.skip(1) =~= bv.drop_first());
    }
    while i < bs.len()
        invariant
            1 <= i <= bs.len(),
            bv == bs@.map_values(|u: usize| u as int),
            best_d as int == dist(best as int, target as int),
            closest_boundary_spec(bv, target as int) == closest_from(
                bv.skip(i as int),
                target as int,
                best as int,
            ),
        decreases bs.len() - i,
    {
        let cand = bs[i];
        let d = if cand >= target {
            cand - target
        } else {
            target - cand
        };
        proof {
            assert(bv.skip(i as int)[0] == bv[i as int]);
            assert(bv.skip(i as int).drop_first() =~= bv.skip(i + 1));
        }
        if d < best_d {
            best = cand;
            best_d = d;
        }
        i = i + 1;
    }
    proof {
        assert(bv.skip(bs.len() as int) =~= Seq::<int>::empty());
    }
    best
}

/// The first index at or after `j` whose node is not a chord; the line
/// length when chords reach to the end.
pub open spec fn next_non_chord(line: Seq<NodeView>, j: int) -> int
    decreases line.len() - j,
{
    if j < 0 || j >= line.len() {
        line.len() as int
    } else if line[j] is Chord {
        next_non_chord(line, j + 1)
    } else {
        j
    }
}

pub proof fn lemma_next_non_chord_is(line: Seq<NodeView>, j: int, k: int)
    requires
        0 <= j <= k <= line.len(),
        forall|l: int| j <= l < k ==> line[l] is Chord,
        k == line.len() || !(line[k] is Chord),
    ensures
        next_non_chord(line, j) == k,
    decreases k - j,
{
    if j == k {
    } else {
        assert(line[j] is Chord);
        lemma_next_non_chord_is(line, j + 1, k);
    }
}

/// Insert-chord-at-offset, the primitive shared by both realigners: walking
/// the line, the first `Text` node whose span contains the offset is found;
/// when only whitespace follows the split point inside that node, the chord
/// is inserted after any chords that already follow, in front of the next
/// word; otherwise the text node is split around the chord. A line without a
/// text node containing the offset stays unchanged.
pub open spec fn push_chord_rec(
    line: Seq<NodeView>,
    i: int,
    ci: int,
    pos: int,
    chord: NodeView,
) -> Seq<NodeView>
    decreases line.len() - i,
{
    if i < 0 || i >= line.len() {
        line
    } else {
        match line[i] {
            NodeView::Text(t) => {
                if ci <= pos <= ci + t.len() {
                    let off = pos - ci;
                    if all_space(t.skip(off)) {
                        line.insert(next_non_chord(line, i + 1), chord)
                    } else {
                        line.take(i) + seq![
                            NodeView::Text(t.take(off)),
                            chord,
                            NodeView::Text(t.skip(off)),
                        ] + line.skip(i + 1)
                    }
                } else {
                    push_chord_rec(line, i + 1, ci + t.len(), pos, chord)
                }
            },
            _ => push_chord_rec(line, i + 1, ci, pos, chord),
        }
    }
}

/// The effect of inserting `chord` at character offset `pos` into a line.
pub open spec fn push_chord_spec(line: Seq<NodeView>, pos: int, chord: NodeView) -> Seq<NodeView> {
    push_chord_rec(line, 0, 0, pos, chord)
}

/// A line type into which a chord can be spliced at a character offset.
pub trait Appendable {
    fn push_chord(&mut self, position: usize, node: TextNode);
}

impl Appendable for Vec<TextNode> {
    #[verifier::loop_isolation(false)]
    fn push_chord(&mut self, position: usize, node: TextNode)
        ensures
            final(self).deep_view() == push_chord_spec(
                old(self).deep_view(),
                position as int,
                node@,
            ),
    {
        let ghost orig = self.deep_view();
        let ghost ov: Seq<TextNode> = self@;
        let mut i: usize = 0;
        let mut ci: usize = 0;
        while i < self.len()
            invariant
                i <= self.len(),
                ci <= position,
                self@ == ov,
                orig == self.deep_view(),
                push_chord_spec(orig, position as int, node@) == push_chord_rec(
                    orig,
                    i as int,
                    ci as int,
                    position as int,
                    node@,
                ),
            decreases self.len() - i,
        {
            let (is_txt, tl) = match &self[i] {
                TextNode::Text(t) => (true, t.unicode_len()),
                _ => (false, 0),
            };
            proof {
                assert(orig[i as int] == ov[i as int]@);
                assert(is_txt == orig[i as int] is Text);
                if is_txt {
                    assert(orig[i as int]->Text_0.len() == tl);
                }
            }
            if is_txt {
                let ghost t = orig[i as int]->Text_0;
                let off = position - ci;
                if off <= tl {
                    let (start, end) = match &self[i] {
                        TextNode::Text(tx) => (
                            tx.as_str().substring_char(0, off).to_owned(),
                            tx.as_str().substring_char(off, tl).to_owned(),
                        ),
                        _ => {
                            proof {
                                assert(false);
                            }
                            (String::new(), String::new())
                        },
                    };
                    proof {
                        assert(start@ =~= t.take(off as int));
                        assert(end@ =~= t.skip(off as int));
                        assert(ci <= position <= ci + t.len());
                    }
                    if crate::strutil::str_all_space(end.as_str()) {
                        proof {
                            assert(all_space(t.skip(off as int)));
                            assert(push_chord_rec(
                                orig,
                                i as int,
                                ci as int,
                                position as int,
                                node@,
                            ) == orig.insert(next_non_chord(orig, i + 1), node@));
                        }
                        let mut k = i + 1;
                        while k < self.len() && matches!(self[k], TextNode::Chord(_))
                            invariant
                                i + 1 <= k <= self.len(),
                                self@ == ov,
                                orig == self.deep_view(),
                                forall|l: int| i + 1 <= l < k ==> orig[l] is Chord,
                            decreases self.len() - k,
                        {
                            proof {
                                assert(orig[k as int] == ov[k as int]@);
                            }
                            k = k + 1;
                        }
                        proof {
                            if k < self.len() {
                                assert(orig[k as int] == ov[k as int]@);
                                assert(!(orig[k as int] is Chord));
                            }
                            lemma_next_non_chord_is(orig, i + 1, k as int);
                        }
                        self.insert(k, node);
                        proof {
                            assert(self.deep_view() =~~= orig.insert(k as int, node@));
                        }
                        return ;
                    } else {
                        proof {
                            assert(!all_space(t.skip(off as int)));
                            assert(push_chord_rec(
                                orig,
                                i as int,
                                ci as int,
                                position as int,
                                node@,
                            ) == orig.take(i as int) + seq![
                                NodeView::Text(t.take(off as int)),
                                node@,
                                NodeView::Text(t.skip(off as int)),
                            ] + orig.skip(i + 1));
                        }
                        self.remove(i);
                        self.insert(i, TextNode::Text(end));
                        self.insert(i, node);
                        self.insert(i, TextNode::Text(start));
                        proof {
                            assert(self.deep_view() =~~= orig.take(i as int) + seq![
                                NodeView::Text(t.take(off as int)),
                                node@,
                                NodeView::Text(t.skip(off as int)),
                            ] + orig.skip(i + 1));
                        }
                        return ;
                    }
                } else {
                    proof {
                        assert(position > ci + t.len());
                        assert(push_chord_rec(orig, i as int, ci as int, position as int, node@)
                            == push_chord_rec(
                            orig,
                            i + 1,
                            ci + t.len(),
                            position as int,
                            node@,
                        ));
                    }
                    ci = ci + tl;
                }
            } else {
                proof {
                    assert(push_chord_rec(orig, i as int, ci as int, position as int, node@)
                        == push_chord_rec(orig, i + 1, ci as int, position as int, node@));
                }
            }
            i = i + 1;
        }
    }
}

/// Inserting a single-space text node between immediately adjacent chords,
/// so merged chord runs remain legible as separate tokens.
pub open spec fn spaced_from(line: Seq<NodeView>, i: int) -> Seq<NodeView>
    decreases line.len() - i,
{
    if i < 0 || i >= line.len() {
        Seq::empty()
    } else if i > 0 && line[i - 1] is Chord && line[i] is Chord {
        seq![NodeView::Text(seq![' ']), line[i]] + spaced_from(line, i + 1)
    } else {
        seq![line[i]] + spaced_from(line, i + 1)
    }
}

/// The line with a single space inserted between adjacent chords.
pub open spec fn space_adjacent_chords(line: Seq<NodeView>) -> Seq<NodeView> {
    spaced_from(line, 0)
}

pub fn space_chords(line: &Vec<TextNode>) -> (r: Vec<TextNode>)
    ensures
        r.deep_view() == space_adjacent_chords(line.deep_view()),
{
    let ghost lv = line.deep_view();
    let mut out: Vec<TextNode> = Vec::new();
    let mut i: usize = 0;
    proof {
        assert(out.deep_view() + spaced_from(lv, 0) =~~= spaced_from(lv, 0));
    }
    while i < line.len()
        invariant
            i <= line.len(),
            lv == line.deep_view(),
            space_adjacent_chords(lv) == out.deep_view() + spaced_from(lv, i as int),
        decreases line.len() - i,
    {
        let ghost pre = out.deep_view();
        let both_chords = i > 0 && matches!(line[i - 1], TextNode::Chord(_)) && matches!(
            line[i],
            TextNode::Chord(_),
        );
        if both_chords {
            out.push(TextNode::Text(" ".to_owned()));
            out.push(line[i].clone());
            proof {
                reveal_strlit(" ");
                assert(" "@ =~= seq![' ']);
                assert(out.deep_view() =~~= pre + seq![NodeView::Text(seq![' ']), lv[i as int]]);
                assert(pre + (seq![NodeView::Text(seq![' ']), lv[i as int]] + spaced_from(
                    lv,
                    i + 1,
                )) =~~= (pre + seq![NodeView::Text(seq![' ']), lv[i as int]]) + spaced_from(
                    lv,
                    i + 1,
                ));
            }
        } else {
            out.push(line[i].clone());
            proof {
                assert(out.deep_view() =~~= pre + seq![lv[i as int]]);
                assert(pre + (seq![lv[i as int]] + spaced_from(lv, i + 1)) =~~= (pre + seq![
                    lv[i as int],
                ]) + spaced_from(lv, i + 1));
            }
        }
        i = i + 1;
    }
    out
}

/// Whether a node survives the empty-text filter.
pub open spec fn keep_node(n: NodeView) -> bool {
    match n {
        NodeView::Text(t) => t.len() != 0,
        _ => true,
    }
}

/// The nodes that are not empty text, in order.
pub open spec fn filtered_from(line: Seq<NodeView>, i: int) -> Seq<NodeView>
    decreases line.len() - i,
{
    if i < 0 || i >= line.len() {
        Seq::empty()
    } else if keep_node(line[i]) {
        seq![line[i]] + filtered_from(line, i + 1)
    } else {
        filtered_from(line, i + 1)
    }
}

/// The line with empty text nodes removed.
pub open spec fn drop_empty_text(line: Seq<NodeView>) -> Seq<NodeView> {
    filtered_from(line, 0)
}

pub fn filter_empty_text(line: &Vec<TextNode>) -> (r: Vec<TextNode>)
    ensures
        r.deep_view() == drop_empty_text(line.deep_view()),
{
    let ghost lv = line.deep_view();
    let mut out: Vec<TextNode> = Vec::new();
    let mut i: usize = 0;
    proof {
        assert(out.deep_view() + filtered_from(lv, 0) =~~= filtered_from(lv, 0));
    }
    while i < line.len()
        invariant
            i <= line.len(),
            lv == line.deep_view(),
            drop_empty_text(lv) == out.deep_view() + filtered_from(lv, i as int),
        decreases line.len() - i,
    {
        let ghost pre = out.deep_view();
        let keep = match &line[i] {
            TextNode::Text(t) => t.unicode_len() != 0,
            _ => true,
        };
        proof {
            assert(keep == keep_node(lv[i as int]));
        }
        if keep {
            out.push(line[i].clone());
            proof {
                assert(out.deep_view() =~~= pre + seq![lv[i as int]]);
                assert(pre + (seq![lv[i as int]] + filtered_from(lv, i + 1)) =~~= (pre + seq![
                    lv[i as int],
                ]) + filtered_from(lv, i + 1));
            }
        }
        i = i + 1;
    }
    out
}

} // verus!

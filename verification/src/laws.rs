//! Laws relating the library's pieces across several functions: the shape
//! of a bracket-free parse, the behavior of repeated chord insertion at a
//! word end, and the transpose round trip.

use vstd::arithmetic::div_mod::{lemma_add_mod_noop, lemma_small_mod};
use vstd::prelude::*;

use crate::align::{next_non_chord, push_chord_rec, push_chord_spec};
use crate::model::NodeView;
use crate::parse::{inline_tokens, run_len};
use crate::strutil::{all_space, join_pat, pat_at, split_pat};
use crate::transpose::{
    canonical_root, chord_segments, root_parse, shift_segment, transpose_chord_spec,
    transpose_nodes,
};

verus! {

/// An input with no bracket characters at all.
pub open spec fn bracket_free(s: Seq<char>) -> bool {
    forall|i: int| 0 <= i < s.len() ==> s[i] != '[' && s[i] != ']'
}

/// The characters a node sequence renders back to: text content verbatim, a
/// newline per separator; chords and labels render their content.
pub open spec fn render_nodes(ns: Seq<NodeView>) -> Seq<char>
    decreases ns.len(),
{
    if ns.len() == 0 {
        Seq::empty()
    } else {
        (match ns[0] {
            NodeView::Text(t) => t,
            NodeView::Chord(c) => c,
            NodeView::Label(l) => l,
            NodeView::Newline => seq!['\n'],
        }) + render_nodes(ns.drop_first())
    }
}

/// The shape a bracket-free parse has: only text and newline nodes, and no
/// two adjacent text nodes — so each line is at most a single text node.
pub open spec fn plain_shape(ns: Seq<NodeView>) -> bool {
    &&& forall|k: int| 0 <= k < ns.len() ==> (#[trigger] ns[k] is Text || ns[k] is Newline)
    &&& forall|k: int| 0 <= k < ns.len() - 1 ==> !(#[trigger] ns[k] is Text && ns[k + 1] is Text)
}

/// Parsing bracket-free inline-dialect input always succeeds and yields one
/// text node per line plus the separating newlines, and concatenating what
/// the nodes hold gives back the original characters exactly.
pub proof fn lemma_inline_plain_parse(s: Seq<char>)
    requires
        bracket_free(s),
    ensures
        inline_tokens(s) is Nodes,
        plain_shape(inline_tokens(s)->Nodes_0),
        render_nodes(inline_tokens(s)->Nodes_0) == s,
    decreases s.len(),
{
    crate::parse::lemma_run_len(s);
    if s.len() == 0 {
        assert(render_nodes(inline_tokens(s)->Nodes_0) =~= s);
    } else if s[0] == '\n' {
        let d = s.drop_first();
        assert(bracket_free(d)) by {
            assert(forall|i: int| 0 <= i < d.len() ==> d[i] == s[i + 1]);
        }
        lemma_inline_plain_parse(d);
        let tail = inline_tokens(d)->Nodes_0;
        let ns = inline_tokens(s)->Nodes_0;
        assert(ns == seq![NodeView::Newline] + tail);
        assert(plain_shape(ns)) by {
            assert(forall|k: int| 1 <= k < ns.len() ==> ns[k] == tail[k - 1]);
        }
        assert(ns.drop_first() =~~= tail);
        assert(render_nodes(ns) =~= seq!['\n'] + render_nodes(tail));
        assert(seq!['\n'] + d =~= s);
    } else {
        let r = run_len(s) as int;
        assert(r >= 1);
        let rest = s.skip(r);
        assert(bracket_free(rest)) by {
            assert(forall|i: int| 0 <= i < rest.len() ==> rest[i] == s[i + r]);
        }
        lemma_inline_plain_parse(rest);
        let tail = inline_tokens(rest)->Nodes_0;
        let ns = inline_tokens(s)->Nodes_0;
        assert(ns == seq![NodeView::Text(s.take(r))] + tail);
        assert(plain_shape(ns)) by {
            assert(forall|k: int| 1 <= k < ns.len() ==> ns[k] == tail[k - 1]);
            if tail.len() > 0 {
                assert(rest.len() > 0);
                assert(!crate::parse::plain_char(s[r]));
                assert(rest[0] == '\n');
                assert(tail[0] is Newline);
            }
            assert(forall|k: int|
                0 <= k < ns.len() - 1 && k >= 1 ==> !(#[trigger] ns[k] is Text && ns[k
                    + 1] is Text));
        }
        assert(ns.drop_first() =~~= tail);
        assert(render_nodes(ns) =~= s.take(r) + render_nodes(tail));
        assert(s.take(r) + rest =~= s);
    }
}

pub proof fn lemma_next_non_chord_props(line: Seq<NodeView>, j: int)
    requires
        0 <= j <= line.len(),
    ensures
        j <= next_non_chord(line, j) <= line.len(),
        forall|l: int| j <= l < next_non_chord(line, j) ==> #[trigger] line[l] is Chord,
        next_non_chord(line, j) < line.len() ==> !(line[next_non_chord(line, j)] is Chord),
    decreases line.len() - j,
{
    if j == line.len() {
    } else if line[j] is Chord {
        lemma_next_non_chord_props(line, j + 1);
    } else {
    }
}

/// Inserting a chord at the offset where a word ends (only whitespace of the
/// leading text node follows the split point) places it past the whitespace,
/// after the chords already standing there and before the next word; a
/// second chord inserted at the same offset lands immediately after the
/// first, never inside the whitespace gap — both precede the next word, in
/// insertion order.
pub proof fn lemma_push_chord_word_end_pair(
    t: Seq<char>,
    rest: Seq<NodeView>,
    pos: int,
    c1: NodeView,
    c2: NodeView,
)
    requires
        0 <= pos <= t.len(),
        all_space(t.skip(pos)),
        c1 is Chord,
        c2 is Chord,
    ensures
        ({
            let line = seq![NodeView::Text(t)] + rest;
            let k = next_non_chord(rest, 0);
            &&& push_chord_spec(line, pos, c1) == seq![NodeView::Text(t)] + rest.insert(k, c1)
            &&& push_chord_spec(push_chord_spec(line, pos, c1), pos, c2) == seq![
                NodeView::Text(t),
            ] + rest.insert(k, c1).insert(k + 1, c2)
        }),
{
    let line = seq![NodeView::Text(t)] + rest;
    let k = next_non_chord(rest, 0);
    lemma_next_non_chord_props(rest, 0);
    assert(line[0] == NodeView::Text(t));
    assert(forall|l: int| 0 <= l < rest.len() ==> line[l + 1] == rest[l]);

    crate::align::lemma_next_non_chord_is(line, 1, 1 + k);
    assert(push_chord_rec(line, 0, 0, pos, c1) == line.insert(1 + k, c1));
    let l1 = line.insert(1 + k, c1);
    let rest1 = rest.insert(k, c1);
    assert(l1 =~~= seq![NodeView::Text(t)] + rest1);

    assert(l1[0] == NodeView::Text(t));
    assert(forall|l: int| 0 <= l < rest1.len() ==> l1[l + 1] == rest1[l]);
    assert(forall|l: int| 0 <= l < k ==> rest1[l] == rest[l]);
    assert(rest1[k] == c1);
    assert(forall|l: int| k < l < rest1.len() ==> rest1[l] == rest[l - 1]);
    crate::align::lemma_next_non_chord_is(l1, 1, 2 + k);
    assert(push_chord_rec(l1, 0, 0, pos, c2) == l1.insert(2 + k, c2));
    assert(l1.insert(2 + k, c2) =~~= seq![NodeView::Text(t)] + rest1.insert(k + 1, c2));
}

proof fn lemma_split_no_sep(s: Seq<char>, sep: char)
    requires
        !s.contains(sep),
    ensures
        split_pat(s, seq![sep]) == seq![s],
    decreases s.len(),
{
    let p = seq![sep];
    if s.len() == 0 {
        assert(split_pat(s, p) =~~= seq![s]);
    } else {
        assert(s[0] != sep) by {
            if s[0] == sep {
                assert(s.contains(sep));
            }
        }
        assert(!pat_at(s, p, 0)) by {
            if pat_at(s, p, 0) {
                assert(s.subrange(0, 1)[0] == s[0]);
                assert(s.subrange(0, 1) == p);
                assert(s[0] == sep);
            }
        }
        let d = s.drop_first();
        assert(!d.contains(sep)) by {
            if d.contains(sep) {
                let ix = choose|ix: int| 0 <= ix < d.len() && d[ix] == sep;
                assert(s[ix + 1] == sep);
                assert(s.contains(sep));
            }
        }
        lemma_split_no_sep(d, sep);
        assert(split_pat(s, p) == seq![seq![s[0]] + seq![d][0]] + seq![d].skip(1));
        assert(seq![seq![s[0]] + d] + seq![d].skip(1) =~~= seq![seq![s[0]] + d]);
        assert(seq![s[0]] + d =~= s);
    }
}

proof fn lemma_split_pieces_no_sep(s: Seq<char>, sep: char)
    ensures
        forall|k: int|
            0 <= k < split_pat(s, seq![sep]).len() ==> !(#[trigger] split_pat(
                s,
                seq![sep],
            )[k]).contains(sep),
    decreases s.len(),
{
    let p = seq![sep];
    if s.len() == 0 {
        assert forall|k: int| 0 <= k < split_pat(s, p).len() implies !(#[trigger] split_pat(
            s,
            p,
        )[k]).contains(sep) by {
            assert(split_pat(s, p)[k] == s);
            if s.contains(sep) {
                let ix = choose|ix: int| 0 <= ix < s.len() && s[ix] == sep;
            }
        }
    } else if pat_at(s, p, 0) {
        lemma_split_pieces_no_sep(s.skip(1), sep);
        let r = split_pat(s.skip(1), p);
        assert(split_pat(s, p) == seq![Seq::<char>::empty()] + r);
        assert forall|k: int| 0 <= k < split_pat(s, p).len() implies !(#[trigger] split_pat(
            s,
            p,
        )[k]).contains(sep) by {
            if k == 0 {
                if Seq::<char>::empty().contains(sep) {
                    let ix = choose|ix: int|
                        0 <= ix < Seq::<char>::empty().len() && Seq::<char>::empty()[ix] == sep;
                }
            } else {
                assert(split_pat(s, p)[k] == r[k - 1]);
            }
        }
    } else {
        assert(s[0] != sep) by {
            if s[0] == sep {
                assert(s.subrange(0, 1) =~= p);
            }
        }
        lemma_split_pieces_no_sep(s.drop_first(), sep);
        let r = split_pat(s.drop_first(), p);
        crate::strutil::lemma_split_pat_len(s.drop_first(), p);
        assert(split_pat(s, p) == seq![seq![s[0]] + r[0]] + r.skip(1));
        assert forall|k: int| 0 <= k < split_pat(s, p).len() implies !(#[trigger] split_pat(
            s,
            p,
        )[k]).contains(sep) by {
            if k == 0 {
                assert(split_pat(s, p)[0] == seq![s[0]] + r[0]);
                if (seq![s[0]] + r[0]).contains(sep) {
                    let ix = choose|ix: int|
                        0 <= ix < (seq![s[0]] + r[0]).len() && (seq![s[0]] + r[0])[ix] == sep;
                    if ix == 0 {
                    } else {
                        assert(r[0][ix - 1] == sep);
                        assert(r[0].contains(sep));
                    }
                }
            } else {
                assert(split_pat(s, p)[k] == r.skip(1)[k - 1]);
                assert(r.skip(1)[k - 1] == r[k]);
            }
        }
    }
}

proof fn lemma_split_concat(a: Seq<char>, b: Seq<char>, sep: char)
    requires
        !a.contains(sep),
    ensures
        split_pat(a + seq![sep] + b, seq![sep]) == seq![a] + split_pat(b, seq![sep]),
    decreases a.len(),
{
    let p = seq![sep];
    let s = a + seq![sep] + b;
    if a.len() == 0 {
        assert(s =~= seq![sep] + b);
        assert(pat_at(s, p, 0)) by {
            assert(s.subrange(0, 1) =~= p);
        }
        assert(s.skip(1) =~= b);
        assert(split_pat(s, p) == seq![Seq::<char>::empty()] + split_pat(b, p));
        assert(seq![Seq::<char>::empty()] + split_pat(b, p) =~~= seq![a] + split_pat(b, p));
    } else {
        assert(s[0] == a[0]);
        assert(a[0] != sep) by {
            if a[0] == sep {
                assert(a.contains(sep));
            }
        }
        assert(!pat_at(s, p, 0)) by {
            if pat_at(s, p, 0) {
                assert(s.subrange(0, 1)[0] == s[0]);
                assert(s[0] == sep);
            }
        }
        let ad = a.drop_first();
        assert(!ad.contains(sep)) by {
            if ad.contains(sep) {
                let ix = choose|ix: int| 0 <= ix < ad.len() && ad[ix] == sep;
                assert(a[ix + 1] == sep);
                assert(a.contains(sep));
            }
        }
        lemma_split_concat(ad, b, sep);
        assert(s.drop_first() =~= ad + seq![sep] + b);
        crate::strutil::lemma_split_pat_len(b, p);
        let r = split_pat(s.drop_first(), p);
        assert(r == seq![ad] + split_pat(b, p));
        assert(r[0] == ad);
        assert(split_pat(s, p) == seq![seq![s[0]] + ad] + r.skip(1));
        assert(seq![s[0]] + ad =~= a);
        assert(r.skip(1) =~~= split_pat(b, p));
        assert(seq![seq![s[0]] + ad] + r.skip(1) =~~= seq![a] + split_pat(b, p));
    }
}

proof fn lemma_split_join(pieces: Seq<Seq<char>>, sep: char)
    requires
        pieces.len() >= 1,
        forall|k: int| 0 <= k < pieces.len() ==> !(#[trigger] pieces[k]).contains(sep),
    ensures
        split_pat(join_pat(pieces, seq![sep]), seq![sep]) == pieces,
    decreases pieces.len(),
{
    let p = seq![sep];
    if pieces.len() == 1 {
        assert(join_pat(pieces, p) == pieces[0]);
        lemma_split_no_sep(pieces[0], sep);
        assert(seq![pieces[0]] =~~= pieces);
    } else {
        let rest = pieces.skip(1);
        assert(forall|k: int| 0 <= k < rest.len() ==> rest[k] == pieces[k + 1]);
        lemma_split_join(rest, sep);
        assert(join_pat(pieces, p) == pieces[0] + p + join_pat(rest, p));
        lemma_split_concat(pieces[0], join_pat(rest, p), sep);
        assert(seq![pieces[0]] + rest =~~= pieces);
    }
}

proof fn lemma_join_split(s: Seq<char>, sep: char)
    ensures
        join_pat(split_pat(s, seq![sep]), seq![sep]) == s,
    decreases s.len(),
{
    let p = seq![sep];
    if s.len() == 0 {
        assert(join_pat(seq![s], p) == s);
    } else if pat_at(s, p, 0) {
        lemma_join_split(s.skip(1), sep);
        let r = split_pat(s.skip(1), p);
        crate::strutil::lemma_split_pat_len(s.skip(1), p);
        assert(split_pat(s, p) == seq![Seq::<char>::empty()] + r);
        assert((seq![Seq::<char>::empty()] + r).len() >= 2);
        assert((seq![Seq::<char>::empty()] + r)[0] == Seq::<char>::empty());
        assert((seq![Seq::<char>::empty()] + r).skip(1) =~~= r);
        assert(join_pat(split_pat(s, p), p) == Seq::<char>::empty() + p + join_pat(r, p));
        assert(s.subrange(0, 1) == p);
        assert(Seq::<char>::empty() + p + s.skip(1) =~= s);
    } else {
        lemma_join_split(s.drop_first(), sep);
        let r = split_pat(s.drop_first(), p);
        crate::strutil::lemma_split_pat_len(s.drop_first(), p);
        assert(split_pat(s, p) == seq![seq![s[0]] + r[0]] + r.skip(1));
        if r.len() == 1 {
            assert(r.skip(1) =~~= Seq::<Seq<char>>::empty());
            assert(split_pat(s, p) =~~= seq![seq![s[0]] + r[0]]);
            assert(join_pat(split_pat(s, p), p) == seq![s[0]] + r[0]);
            assert(join_pat(r, p) == r[0]);
            assert(seq![s[0]] + s.drop_first() =~= s);
        } else {
            let sp = split_pat(s, p);
            assert(sp.len() >= 2);
            assert(sp[0] == seq![s[0]] + r[0]);
            assert(sp.skip(1) =~~= r.skip(1));
            assert(join_pat(sp, p) == sp[0] + p + join_pat(r.skip(1), p));
            assert(join_pat(r, p) == r[0] + p + join_pat(r.skip(1), p));
            assert(seq![s[0]] + r[0] + p + join_pat(r.skip(1), p) =~= seq![s[0]] + (r[0] + p
                + join_pat(r.skip(1), p)));
            assert(seq![s[0]] + s.drop_first() =~= s);
        }
    }
}

/// The canonical rendering of a segment: the parsed root's canonical
/// spelling followed by the parsed suffix; an unparseable segment renders as
/// itself.
pub open spec fn canonical_rendering(seg: Seq<char>) -> Seq<char> {
    match root_parse(seg) {
        Some(pr) => canonical_root(pr.0) + pr.1,
        None => seg,
    }
}

/// A segment spelled as the canonical table itself would render it.
pub open spec fn canonically_spelled(seg: Seq<char>) -> bool {
    root_parse(seg) is Some && seg == canonical_rendering(seg)
}

/// The shifted segment re-parses to the shifted index and the same suffix:
/// the suffix does not bleed into the new root's spelling (as it would when,
/// say, a transposed root `E` meets a suffix starting with `b`, or `Eb`
/// meets a suffix starting with `su`).
pub open spec fn shift_reparses(seg: Seq<char>, n: int) -> bool {
    match root_parse(seg) {
        Some(pr) => root_parse(shift_segment(seg, n)) == Some(
            (((pr.0 + n) % 12), pr.1),
        ),
        None => false,
    }
}

/// The parsed root index is always a semitone index.
proof fn lemma_root_parse_range(seg: Seq<char>)
    ensures
        root_parse(seg) is Some ==> 0 <= root_parse(seg)->Some_0.0 < 12,
{
}

/// Shifting any parseable segment by `n` and back yields the canonical
/// rendering of its pitch class with the original suffix — whatever the
/// original spelling was — as long as the shifted spelling re-parses
/// cleanly.
pub proof fn lemma_shift_segment_canonicalizes(seg: Seq<char>, n: int)
    requires
        shift_reparses(seg, n),
    ensures
        shift_segment(shift_segment(seg, n), 0 - n) == canonical_rendering(seg),
{
    let pr = root_parse(seg)->Some_0;
    let i = pr.0;
    let suf = pr.1;
    lemma_root_parse_range(seg);
    let j = (i + n) % 12;
    let s1 = shift_segment(seg, n);
    assert(s1 == canonical_root(j) + suf);
    assert(root_parse(s1) == Some((j, suf)));
    assert(shift_segment(s1, 0 - n) == canonical_root((j + (0 - n)) % 12) + suf);
    assert((j + (0 - n)) % 12 == i) by {
        lemma_add_mod_noop(i + n, 0 - n, 12);
        assert(((i + n) % 12 + ((0 - n) % 12)) % 12 == (i + n + (0 - n)) % 12);
        lemma_add_mod_noop(j, 0 - n, 12);
        assert((j % 12 + ((0 - n) % 12)) % 12 == (j + (0 - n)) % 12);
        lemma_small_mod(j as nat, 12);
        assert(j % 12 == j);
        lemma_small_mod(i as nat, 12);
        assert((i + n + (0 - n)) % 12 == i % 12);
    }
}

/// Shifting a canonically spelled segment by `n` and back restores it, as
/// long as the shifted spelling re-parses cleanly.
pub proof fn lemma_shift_segment_round_trip(seg: Seq<char>, n: int)
    requires
        canonically_spelled(seg),
        shift_reparses(seg, n),
    ensures
        shift_segment(shift_segment(seg, n), 0 - n) == seg,
{
    lemma_shift_segment_canonicalizes(seg, n);
}

/// A chord whose segments all re-parse cleanly after the shift by `n`.
pub open spec fn chord_shift_reparses(c: Seq<char>, n: int) -> bool {
    forall|k: int|
        0 <= k < chord_segments(c).len() ==> shift_reparses(#[trigger] chord_segments(c)[k], n)
}

/// A chord the round trip restores exactly: every segment is canonically
/// spelled and its shifted spelling re-parses cleanly.
pub open spec fn chord_round_trips(c: Seq<char>, n: int) -> bool {
    forall|k: int|
        0 <= k < chord_segments(c).len() ==> canonically_spelled(#[trigger] chord_segments(c)[k])
            && shift_reparses(chord_segments(c)[k], n)
}

/// A chord with every segment re-rendered canonically.
pub open spec fn canonicalize_chord(c: Seq<char>) -> Seq<char> {
    join_pat(chord_segments(c).map_values(|seg: Seq<char>| canonical_rendering(seg)), seq!['/'])
}

proof fn lemma_canonical_no_slash(j: int)
    ensures
        !canonical_root(j).contains('/'),
{
    let cr = canonical_root(j);
    if cr.contains('/') {
        let ix = choose|ix: int| 0 <= ix < cr.len() && cr[ix] == '/';
        assert(false);
    }
}

/// Transposing a chord by `+n` and then by `-n` yields the chord with every
/// segment re-rendered canonically — the canonical spelling of each pitch
/// class with its original suffix — whatever the original spellings were, as
/// long as every shifted spelling re-parses cleanly.
pub proof fn lemma_transpose_chord_canonicalizes(c: Seq<char>, n: int)
    requires
        chord_shift_reparses(c, n),
    ensures
        transpose_chord_spec(transpose_chord_spec(c, n), 0 - n) == canonicalize_chord(c),
{
    let segs = chord_segments(c);
    crate::strutil::lemma_split_pat_len(c, seq!['/']);
    lemma_split_pieces_no_sep(c, '/');
    let f = |seg: Seq<char>| shift_segment(seg, n);
    let g = |seg: Seq<char>| shift_segment(seg, 0 - n);
    let h = |seg: Seq<char>| canonical_rendering(seg);
    let mapped = segs.map_values(f);
    let t1 = transpose_chord_spec(c, n);
    assert(t1 == join_pat(mapped, seq!['/']));
    assert forall|k: int| 0 <= k < mapped.len() implies !(#[trigger] mapped[k]).contains('/') by {
        assert(shift_reparses(segs[k], n));
        let pr = root_parse(segs[k])->Some_0;
        lemma_root_parse_range(segs[k]);
        let j = (pr.0 + n) % 12;
        assert(mapped[k] == canonical_root(j) + pr.1);
        lemma_canonical_no_slash(j);
        if mapped[k].contains('/') {
            let ix = choose|ix: int| 0 <= ix < mapped[k].len() && mapped[k][ix] == '/';
            if ix < canonical_root(j).len() {
                assert(canonical_root(j).contains('/'));
            } else {
                let off = ix - canonical_root(j).len();
                assert(pr.1[off] == '/');
                assert(pr.1.contains('/'));
                assert(!segs[k].contains('/'));
                assert(pr.1 =~= segs[k].skip(segs[k].len() - pr.1.len())) by {
                    lemma_root_parse_suffix(segs[k]);
                }
                assert(segs[k][segs[k].len() - pr.1.len() + off] == '/');
                assert(segs[k].contains('/'));
            }
        }
    }
    lemma_split_join(mapped, '/');
    assert(chord_segments(t1) == mapped);
    let t2 = transpose_chord_spec(t1, 0 - n);
    assert(t2 == join_pat(mapped.map_values(g), seq!['/']));
    assert(mapped.map_values(g) =~~= segs.map_values(h)) by {
        assert forall|k: int| 0 <= k < segs.len() implies g(f(segs[k])) == h(segs[k]) by {
            assert(shift_reparses(segs[k], n));
            lemma_shift_segment_canonicalizes(segs[k], n);
        }
        assert(forall|k: int| 0 <= k < mapped.len() ==> mapped.map_values(g)[k] == g(
            f(#[trigger] segs[k]),
        ));
    }
}

/// The parsed suffix is a suffix of the segment itself.
proof fn lemma_root_parse_suffix(seg: Seq<char>)
    requires
        root_parse(seg) is Some,
    ensures
        root_parse(seg)->Some_0.1 == seg.skip(seg.len() - root_parse(seg)->Some_0.1.len()),
{
    let suf = root_parse(seg)->Some_0.1;
    if suf == seg.skip(1) {
        assert(suf =~= seg.skip(seg.len() - suf.len()));
    } else {
        assert(suf == seg.skip(2));
        assert(suf =~= seg.skip(seg.len() - suf.len()));
    }
}

/// Transposing a chord by `+n` and then by `-n` restores it exactly, on
/// every chord whose segments are canonically spelled and whose shifted
/// spellings re-parse cleanly.
pub proof fn lemma_transpose_chord_round_trip(c: Seq<char>, n: int)
    requires
        chord_round_trips(c, n),
    ensures
        transpose_chord_spec(transpose_chord_spec(c, n), 0 - n) == c,
{
    let segs = chord_segments(c);
    assert(chord_shift_reparses(c, n)) by {
        assert forall|k: int| 0 <= k < segs.len() implies shift_reparses(
            #[trigger] chord_segments(c)[k],
            n,
        ) by {
            assert(canonically_spelled(segs[k]) && shift_reparses(segs[k], n));
        }
    }
    lemma_transpose_chord_canonicalizes(c, n);
    let h = |seg: Seq<char>| canonical_rendering(seg);
    assert(segs.map_values(h) =~~= segs) by {
        assert forall|k: int| 0 <= k < segs.len() implies segs.map_values(h)[k] == segs[k] by {
            assert(canonically_spelled(segs[k]));
            assert(h(segs[k]) == segs[k]);
        }
    }
    lemma_join_split(c, '/');
    assert(join_pat(segs, seq!['/']) == c);
}

/// A node sequence whose chords all re-parse cleanly after the shift by `n`.
pub open spec fn nodes_shift_reparse(ns: Seq<NodeView>, n: int) -> bool {
    forall|k: int|
        0 <= k < ns.len() ==> (#[trigger] ns[k] is Chord ==> chord_shift_reparses(
            ns[k]->Chord_0,
            n,
        ))
}

/// A node sequence the round trip restores exactly: every chord of it is
/// canonically spelled and re-parses cleanly after the shift.
pub open spec fn nodes_round_trip(ns: Seq<NodeView>, n: int) -> bool {
    forall|k: int|
        0 <= k < ns.len() ==> (#[trigger] ns[k] is Chord ==> chord_round_trips(ns[k]->Chord_0, n))
}

/// Every chord node re-rendered canonically; other nodes unchanged.
pub open spec fn canonicalize_nodes(ns: Seq<NodeView>) -> Seq<NodeView> {
    ns.map_values(
        |nd: NodeView|
            match nd {
                NodeView::Chord(c) => NodeView::Chord(canonicalize_chord(c)),
                other => other,
            },
    )
}

/// Transposing a document by `+n` and then by `-n` re-renders every chord
/// canonically: a chord with a non-canonical enharmonic root comes back as
/// the canonical spelling of its pitch class with the original suffix; text,
/// labels and newlines are untouched either way.
pub proof fn lemma_transpose_nodes_canonicalize(ns: Seq<NodeView>, n: int)
    requires
        nodes_shift_reparse(ns, n),
    ensures
        transpose_nodes(transpose_nodes(ns, n), 0 - n) == canonicalize_nodes(ns),
{
    let t1 = transpose_nodes(ns, n);
    let t2 = transpose_nodes(t1, 0 - n);
    assert(t2 =~~= canonicalize_nodes(ns)) by {
        assert forall|k: int| 0 <= k < ns.len() implies t2[k] == canonicalize_nodes(ns)[k] by {
            match ns[k] {
                NodeView::Chord(c) => {
                    lemma_transpose_chord_canonicalizes(c, n);
                    assert(t1[k] == NodeView::Chord(transpose_chord_spec(c, n)));
                    assert(t2[k] == NodeView::Chord(
                        transpose_chord_spec(transpose_chord_spec(c, n), 0 - n),
                    ));
                },
                _ => {
                    assert(t1[k] == ns[k]);
                },
            }
        }
    }
}

/// Transposing a document by `+n` and then by `-n` restores every chord's
/// rendered spelling exactly, on every document whose chords are canonically
/// spelled and re-parse cleanly after the first shift; text, labels and
/// newlines are untouched either way.
pub proof fn lemma_transpose_nodes_round_trip(ns: Seq<NodeView>, n: int)
    requires
        nodes_round_trip(ns, n),
    ensures
        transpose_nodes(transpose_nodes(ns, n), 0 - n) == ns,
{
    let t1 = transpose_nodes(ns, n);
    let t2 = transpose_nodes(t1, 0 - n);
    assert(t2 =~~= ns) by {
        assert forall|k: int| 0 <= k < ns.len() implies t2[k] == ns[k] by {
            match ns[k] {
                NodeView::Chord(c) => {
                    lemma_transpose_chord_round_trip(c, n);
                    assert(t1[k] == NodeView::Chord(transpose_chord_spec(c, n)));
                    assert(t2[k] == NodeView::Chord(
                        transpose_chord_spec(transpose_chord_spec(c, n), 0 - n),
                    ));
                },
                _ => {
                    assert(t1[k] == ns[k]);
                },
            }
        }
    }
}

} // verus!

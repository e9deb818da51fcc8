//! Editing hints: the song body interleaved with markers for every position
//! where an editor could insert a chord — around words, chords and the
//! spaces between words — with runs of equal markers and equal space nodes
//! collapsed.

use vstd::prelude::*;
use vstd::string::StrSliceExecFns;

use crate::model::{node_view_eq, NodeView, TextNode};
use crate::strutil::{all_space, split_pat, split_str, str_all_space, str_eq};

verus! {

/// One editing hint: a node of the song, or a position where a chord could
/// be inserted.
#[derive(Debug)]
pub enum EditingHint {
    Node(TextNode),
    PossibleChordPlace,
}

/// The ghost counterpart of [`EditingHint`].
pub enum HintView {
    Node(NodeView),
    PossibleChordPlace,
}

impl View for EditingHint {
    type V = HintView;

    open spec fn view(&self) -> HintView {
        match self {
            EditingHint::Node(n) => HintView::Node(n@),
            EditingHint::PossibleChordPlace => HintView::PossibleChordPlace,
        }
    }
}

impl DeepView for EditingHint {
    type V = HintView;

    open spec fn deep_view(&self) -> HintView {
        self.view()
    }
}

/// Equality of two hint views.
pub open spec fn hint_view_eq(a: HintView, b: HintView) -> bool {
    match (a, b) {
        (HintView::Node(x), HintView::Node(y)) => node_view_eq(x, y),
        (HintView::PossibleChordPlace, HintView::PossibleChordPlace) => true,
        _ => false,
    }
}

impl Clone for EditingHint {
    fn clone(&self) -> (r: EditingHint)
        ensures
            r == *self,
    {
        match self {
            EditingHint::Node(n) => EditingHint::Node(n.clone()),
            EditingHint::PossibleChordPlace => EditingHint::PossibleChordPlace,
        }
    }
}

impl PartialEq for EditingHint {
    fn eq(&self, other: &EditingHint) -> (r: bool) {
        match (self, other) {
            (EditingHint::Node(a), EditingHint::Node(b)) => a.eq(b),
            (EditingHint::PossibleChordPlace, EditingHint::PossibleChordPlace) => true,
            _ => false,
        }
    }
}

impl vstd::std_specs::cmp::PartialEqSpecImpl for EditingHint {
    open spec fn obeys_eq_spec() -> bool {
        true
    }

    open spec fn eq_spec(&self, other: &EditingHint) -> bool {
        hint_view_eq(self@, other@)
    }
}

/// The hints one space-delimited piece of a text node expands to: an
/// all-whitespace piece becomes a bare single-space node; a word is wrapped
/// in chord places, and, unless it is the last piece, followed by a
/// chord-place-wrapped single space.
pub open spec fn piece_hints(parts: Seq<Seq<char>>, i: int) -> Seq<HintView> {
    if all_space(parts[i]) {
        seq![HintView::Node(NodeView::Text(seq![' ']))]
    } else if i != parts.len() - 1 {
        seq![
            HintView::PossibleChordPlace,
            HintView::Node(NodeView::Text(parts[i])),
            HintView::PossibleChordPlace,
            HintView::Node(NodeView::Text(seq![' '])),
            HintView::PossibleChordPlace,
        ]
    } else {
        seq![
            HintView::PossibleChordPlace,
            HintView::Node(NodeView::Text(parts[i])),
            HintView::PossibleChordPlace,
        ]
    }
}

/// The hints of all pieces from `i` on.
pub open spec fn expand_parts(parts: Seq<Seq<char>>, i: int) -> Seq<HintView>
    decreases parts.len() - i,
{
    if i < 0 || i >= parts.len() {
        Seq::empty()
    } else {
        piece_hints(parts, i) + expand_parts(parts, i + 1)
    }
}

/// The hints one node expands to: a text node is split on spaces and each
/// piece expanded; a chord is wrapped in chord places; labels and newlines
/// pass through.
pub open spec fn expand_node(n: NodeView) -> Seq<HintView> {
    match n {
        NodeView::Text(t) => expand_parts(split_pat(t, seq![' ']), 0),
        NodeView::Chord(_) => seq![
            HintView::PossibleChordPlace,
            HintView::Node(n),
            HintView::PossibleChordPlace,
        ],
        NodeView::Label(_) => seq![HintView::Node(n)],
        NodeView::Newline => seq![HintView::Node(n)],
    }
}

/// The hints of all nodes from `i` on.
pub open spec fn expand_nodes(ns: Seq<NodeView>, i: int) -> Seq<HintView>
    decreases ns.len() - i,
{
    if i < 0 || i >= ns.len() {
        Seq::empty()
    } else {
        expand_node(ns[i]) + expand_nodes(ns, i + 1)
    }
}

/// Whether `b` duplicates the retained hint `a`: both are chord places, or
/// both are text nodes with equal content.
pub open spec fn hint_dup(a: HintView, b: HintView) -> bool {
    match (a, b) {
        (HintView::Node(NodeView::Text(x)), HintView::Node(NodeView::Text(y))) => x == y,
        _ => (a is PossibleChordPlace) && (b is PossibleChordPlace),
    }
}

/// Collapsing runs of duplicates from `i` on, `last` being the hint most
/// recently retained.
pub open spec fn dedup_from(hints: Seq<HintView>, i: int, last: HintView) -> Seq<HintView>
    decreases hints.len() - i,
{
    if i < 0 || i >= hints.len() {
        Seq::empty()
    } else if hint_dup(last, hints[i]) {
        dedup_from(hints, i + 1, last)
    } else {
        seq![hints[i]] + dedup_from(hints, i + 1, hints[i])
    }
}

/// The hints with every run of duplicates collapsed to its first element.
pub open spec fn dedup_hints(hints: Seq<HintView>) -> Seq<HintView> {
    if hints.len() == 0 {
        Seq::empty()
    } else {
        seq![hints[0]] + dedup_from(hints, 1, hints[0])
    }
}

/// The editing hints of a whole song body.
pub open spec fn hints_spec(ns: Seq<NodeView>) -> Seq<HintView> {
    dedup_hints(expand_nodes(ns, 0))
}

/// Expands the hints of one text node into `out`.
#[verifier::loop_isolation(false)]
fn push_text_hints(out: &mut Vec<EditingHint>, t: &String)
    ensures
        final(out).deep_view() == old(out).deep_view() + expand_parts(
            split_pat(t@, seq![' ']),
            0,
        ),
{
    proof {
        reveal_strlit(" ");
        assert(" "@ =~= seq![' ']);
    }
    let parts = split_str(t.as_str(), " ");
    let ghost pv = parts.deep_view();
    let ghost base = out.deep_view();
    let mut i: usize = 0;
    proof {
        assert(base + expand_parts(pv, 0) =~~= base + expand_parts(pv, 0));
    }
    while i < parts.len()
        invariant
            i <= parts.len(),
            base + expand_parts(pv, 0) == out.deep_view() + expand_parts(pv, i as int),
        decreases parts.len() - i,
    {
        let ghost pre = out.deep_view();
        let part = &parts[i];
        proof {
            assert(part@ == pv[i as int]);
        }
        if str_all_space(part.as_str()) {
            out.push(EditingHint::Node(TextNode::Text(" ".to_owned())));
            proof {
                assert(out.deep_view() =~~= pre + piece_hints(pv, i as int));
                assert(pre + (piece_hints(pv, i as int) + expand_parts(pv, i + 1)) =~~= (pre
                    + piece_hints(pv, i as int)) + expand_parts(pv, i + 1));
            }
        } else if i != parts.len() - 1 {
            out.push(EditingHint::PossibleChordPlace);
            out.push(EditingHint::Node(TextNode::Text(part.clone())));
            out.push(EditingHint::PossibleChordPlace);
            out.push(EditingHint::Node(TextNode::Text(" ".to_owned())));
            out.push(EditingHint::PossibleChordPlace);
            proof {
                assert(out.deep_view() =~~= pre + piece_hints(pv, i as int));
                assert(pre + (piece_hints(pv, i as int) + expand_parts(pv, i + 1)) =~~= (pre
                    + piece_hints(pv, i as int)) + expand_parts(pv, i + 1));
            }
        } else {
            out.push(EditingHint::PossibleChordPlace);
            out.push(EditingHint::Node(TextNode::Text(part.clone())));
            out.push(EditingHint::PossibleChordPlace);
            proof {
                assert(out.deep_view() =~~= pre + piece_hints(pv, i as int));
                assert(pre + (piece_hints(pv, i as int) + expand_parts(pv, i + 1)) =~~= (pre
                    + piece_hints(pv, i as int)) + expand_parts(pv, i + 1));
            }
        }
        i = i + 1;
    }
    proof {
        assert(expand_parts(pv, parts.len() as int) =~~= Seq::<HintView>::empty());
        assert(out.deep_view() + Seq::<HintView>::empty() =~~= out.deep_view());
    }
}

/// Whether `b` duplicates the retained hint `a`.
fn hint_dup_exec(a: &EditingHint, b: &EditingHint) -> (r: bool)
    ensures
        r == hint_dup(a@, b@),
{
    match (a, b) {
        (EditingHint::Node(TextNode::Text(x)), EditingHint::Node(TextNode::Text(y))) => str_eq(
            x.as_str(),
            y.as_str(),
        ),
        (EditingHint::PossibleChordPlace, EditingHint::PossibleChordPlace) => true,
        _ => false,
    }
}

/// The song body interleaved with chord-insertion markers: every word,
/// inter-word space and chord is surrounded by possible chord places, and
/// runs of equal markers or equal space nodes are collapsed.
#[verifier::loop_isolation(false)]
pub fn get_editing_hints(nodes: Vec<TextNode>) -> (r: Vec<EditingHint>)
    ensures
        r.deep_view() == hints_spec(nodes.deep_view()),
{
    let ghost nv = nodes.deep_view();
    let mut expanded: Vec<EditingHint> = Vec::new();
    let mut i: usize = 0;
    while i < nodes.len()
        invariant
            i <= nodes.len(),
            expand_nodes(nv, 0) == expanded.deep_view() + expand_nodes(nv, i as int),
        decreases nodes.len() - i,
    {
        let ghost pre = expanded.deep_view();
        proof {
            assert(nv[i as int] == nodes@[i as int]@);
        }
        match &nodes[i] {
            TextNode::Text(t) => {
                push_text_hints(&mut expanded, t);
            },
            TextNode::Chord(_) => {
                expanded.push(EditingHint::PossibleChordPlace);
                expanded.push(EditingHint::Node(nodes[i].clone()));
                expanded.push(EditingHint::PossibleChordPlace);
            },
            _ => {
                expanded.push(EditingHint::Node(nodes[i].clone()));
            },
        }
        proof {
            assert(expanded.deep_view() =~~= pre + expand_node(nv[i as int]));
            assert(pre + (expand_node(nv[i as int]) + expand_nodes(nv, i + 1)) =~~= (pre
                + expand_node(nv[i as int])) + expand_nodes(nv, i + 1));
        }
        i = i + 1;
    }
    proof {
        assert(expand_nodes(nv, nodes.len() as int) =~~= Seq::<HintView>::empty());
        assert(expanded.deep_view() + Seq::<HintView>::empty() =~~= expanded.deep_view());
        assert(expanded.deep_view() == expand_nodes(nv, 0));
    }
    let ghost ev = expanded.deep_view();
    let mut out: Vec<EditingHint> = Vec::new();
    if expanded.len() == 0 {
        proof {
            assert(out.deep_view() =~~= hints_spec(nv));
        }
        return out;
    }
    out.push(expanded[0].clone());
    let mut last: usize = 0;
    let mut k: usize = 1;
    proof {
        assert(out.deep_view() =~~= seq![ev[0]]);
    }
    while k < expanded.len()
        invariant
            1 <= k <= expanded.len(),
            last < k,
            ev == expanded.deep_view(),
            out.deep_view().len() >= 1,
            out.deep_view().last() == ev[last as int],
            dedup_hints(ev) == out.deep_view() + dedup_from(ev, k as int, ev[last as int]),
        decreases expanded.len() - k,
    {
        let ghost pre = out.deep_view();
        let dup = hint_dup_exec(&expanded[last], &expanded[k]);
        proof {
            assert(ev[k as int] == expanded@[k as int]@);
            assert(ev[last as int] == expanded@[last as int]@);
        }
        if !dup {
            out.push(expanded[k].clone());
            proof {
                assert(out.deep_view() =~~= pre.push(ev[k as int]));
                assert(pre + (seq![ev[k as int]] + dedup_from(ev, k + 1, ev[k as int])) =~~= (pre
                    + seq![ev[k as int]]) + dedup_from(ev, k + 1, ev[k as int]));
            }
            last = k;
        }
        k = k + 1;
    }
    proof {
        assert(dedup_from(ev, expanded.len() as int, ev[last as int]) =~~= Seq::<
            HintView,
        >::empty());
        assert(out.deep_view() + Seq::<HintView>::empty() =~~= out.deep_view());
    }
    out
}

} // verus!

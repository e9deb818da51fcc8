//! The line segmenter: a flat node sequence is split at `Newline` nodes into
//! logical lines, and lines are joined back with single `Newline` separators.
//!
//! A line is a maximal run of nodes between two separators or between a
//! separator and an end of the document, so there is always one line more
//! than there are separators: a trailing separator yields a final empty
//! line, and an unterminated final line is kept. The bracket-everything
//! realigner additionally drops empty lines.

use vstd::prelude::*;
use vstd::string::StringExecFns;

use crate::model::{line_text, node_text, NodeView, TextNode};

verus! {

/// The lines of a node sequence: the maximal runs between `Newline` nodes
/// and the document's ends — one line more than there are separators.
pub open spec fn split_lines(nodes: Seq<NodeView>) -> Seq<Seq<NodeView>>
    decreases nodes.len(),
{
    if nodes.len() == 0 {
        seq![Seq::<NodeView>::empty()]
    } else if nodes[0] is Newline {
        seq![Seq::<NodeView>::empty()] + split_lines(nodes.drop_first())
    } else {
        let r = split_lines(nodes.drop_first());
        seq![seq![nodes[0]] + r[0]] + r.skip(1)
    }
}

pub proof fn lemma_split_lines_len(nodes: Seq<NodeView>)
    ensures
        split_lines(nodes).len() >= 1,
    decreases nodes.len(),
{
    if nodes.len() == 0 {
    } else if nodes[0] is Newline {
    } else {
        lemma_split_lines_len(nodes.drop_first());
    }
}

/// The first line extended at the front by `x`.
pub open spec fn prepend_line(x: Seq<NodeView>, ls: Seq<Seq<NodeView>>) -> Seq<Seq<NodeView>> {
    seq![x + ls[0]] + ls.skip(1)
}

pub fn lines_of(nodes: &Vec<TextNode>) -> (r: Vec<Vec<TextNode>>)
    ensures
        r.deep_view() == split_lines(nodes.deep_view()),
{
    let ghost all = nodes.deep_view();
    let mut out: Vec<Vec<TextNode>> = Vec::new();
    let mut cur: Vec<TextNode> = Vec::new();
    let mut i: usize = 0;
    proof {
        assert(all.skip(0) =~= all);
        lemma_split_lines_len(all);
        assert(out.deep_view() + prepend_line(cur.deep_view(), split_lines(all)) =~~= split_lines(
            all,
        ));
    }
    while i < nodes.len()
        invariant
            i <= nodes.len(),
            all == nodes.deep_view(),
            split_lines(all) == out.deep_view() + prepend_line(
                cur.deep_view(),
                split_lines(all.skip(i as int)),
            ),
        decreases nodes.len() - i,
    {
        let ghost t = all.skip(i as int);
        let ghost pre = out.deep_view() + prepend_line(cur.deep_view(), split_lines(t));
        proof {
            assert(t[0] == all[i as int]);
            assert(t.drop_first() =~= all.skip(i + 1));
            lemma_split_lines_len(all.skip(i + 1));
        }
        let node = nodes[i].clone();
        proof {
            assert(node@ == all[i as int]);
        }
        if matches!(node, TextNode::Newline) {
            out.push(cur);
            cur = Vec::new();
            proof {
                let p = split_lines(all.skip(i + 1));
                assert(cur.deep_view() =~~= Seq::<NodeView>::empty());
                assert(prepend_line(Seq::<NodeView>::empty(), p) =~~= p);
                assert(out.deep_view() + prepend_line(cur.deep_view(), p) =~~= pre);
            }
        } else {
            let ghost old_cur = cur.deep_view();
            cur.push(node);
            proof {
                let p = split_lines(all.skip(i + 1));
                assert(cur.deep_view() =~~= old_cur.push(all[i as int]));
                assert(old_cur + (seq![all[i as int]] + p[0]) =~= (old_cur.push(all[i as int]))
                    + p[0]);
                assert(out.deep_view() + prepend_line(cur.deep_view(), p) =~~= pre);
            }
        }
        i = i + 1;
    }
    proof {
        assert(all.skip(nodes.len() as int).len() == 0);
        assert(split_lines(all.skip(nodes.len() as int)) =~~= seq![Seq::<NodeView>::empty()]);
    }
    let ghost cv = cur.deep_view();
    out.push(cur);
    proof {
        assert(prepend_line(cv, seq![Seq::<NodeView>::empty()]) =~~= seq![cv]);
        assert(out.deep_view() =~~= split_lines(all));
    }
    out
}

/// A copy of a line, node for node.
pub fn clone_line(line: &Vec<TextNode>) -> (r: Vec<TextNode>)
    ensures
        r.deep_view() == line.deep_view(),
        r@.len() == line@.len(),
{
    let copy = line.clone();
    proof {
        assert(copy.deep_view() =~~= line.deep_view()) by {
            assert(forall|j: int| 0 <= j < copy@.len() ==> copy@[j] == #[trigger] line@[j]);
        }
    }
    copy
}

/// The lines with empty lines removed.
pub open spec fn drop_empty_lines(ls: Seq<Seq<NodeView>>) -> Seq<Seq<NodeView>>
    decreases ls.len(),
{
    if ls.len() == 0 {
        Seq::empty()
    } else if ls[0].len() == 0 {
        drop_empty_lines(ls.drop_first())
    } else {
        seq![ls[0]] + drop_empty_lines(ls.drop_first())
    }
}

pub proof fn lemma_drop_empty_snoc(ls: Seq<Seq<NodeView>>, x: Seq<NodeView>)
    ensures
        drop_empty_lines(ls.push(x)) == drop_empty_lines(ls) + (if x.len() == 0 {
            Seq::<Seq<NodeView>>::empty()
        } else {
            seq![x]
        }),
    decreases ls.len(),
{
    if ls.len() == 0 {
        assert(ls.push(x).drop_first() =~~= Seq::<Seq<NodeView>>::empty());
        assert(ls.push(x)[0] == x);
        assert(drop_empty_lines(ls.push(x).drop_first()) =~~= Seq::<Seq<NodeView>>::empty());
        if x.len() == 0 {
            assert(drop_empty_lines(ls.push(x)) =~~= drop_empty_lines(ls));
        } else {
            assert(drop_empty_lines(ls.push(x)) =~~= seq![x]);
            assert(drop_empty_lines(ls) + seq![x] =~~= seq![x]);
        }
    } else {
        lemma_drop_empty_snoc(ls.drop_first(), x);
        assert(ls.push(x).drop_first() =~~= ls.drop_first().push(x));
        assert(ls.push(x)[0] == ls[0]);
        if ls[0].len() == 0 {
        } else {
            if x.len() == 0 {
            } else {
                assert(seq![ls[0]] + (drop_empty_lines(ls.drop_first()) + seq![x]) =~~= (seq![
                    ls[0],
                ] + drop_empty_lines(ls.drop_first())) + seq![x]);
            }
        }
    }
}

/// The nonempty lines of a node sequence, in order.
pub fn nonempty_lines_of(nodes: &Vec<TextNode>) -> (r: Vec<Vec<TextNode>>)
    ensures
        r.deep_view() == drop_empty_lines(split_lines(nodes.deep_view())),
{
    let all_lines = lines_of(nodes);
    let ghost ls = all_lines.deep_view();
    let mut out: Vec<Vec<TextNode>> = Vec::new();
    let mut i: usize = 0;
    proof {
        assert(ls.take(0) =~~= Seq::<Seq<NodeView>>::empty());
        assert(out.deep_view() =~~= drop_empty_lines(ls.take(0)));
    }
    while i < all_lines.len()
        invariant
            i <= all_lines.len(),
            ls == all_lines.deep_view(),
            out.deep_view() == drop_empty_lines(ls.take(i as int)),
        decreases all_lines.len() - i,
    {
        let ghost pre = out.deep_view();
        let line = &all_lines[i];
        if line.len() > 0 {
            let copy = line.clone();
            proof {
                assert(copy.deep_view() =~~= ls[i as int]) by {
                    assert(forall|j: int|
                        0 <= j < copy@.len() ==> copy@[j] == #[trigger] line@[j]);
                }
            }
            out.push(copy);
            proof {
                assert(out.deep_view() =~~= pre.push(ls[i as int]));
            }
        }
        proof {
            assert(ls.take(i + 1) =~~= ls.take(i as int).push(ls[i as int]));
            lemma_drop_empty_snoc(ls.take(i as int), ls[i as int]);
            assert(ls[i as int].len() == all_lines[i as int]@.len());
            if ls[i as int].len() == 0 {
                assert(out.deep_view() =~~= drop_empty_lines(ls.take(i + 1)));
            } else {
                assert(out.deep_view() =~~= drop_empty_lines(ls.take(i + 1)));
            }
        }
        i = i + 1;
    }
    proof {
        assert(ls.take(all_lines.len() as int) =~~= ls);
    }
    out
}

/// The lines joined back into one flat sequence, a single `Newline` between
/// adjacent lines and none at the end.
pub open spec fn join_lines(ls: Seq<Seq<NodeView>>) -> Seq<NodeView>
    decreases ls.len(),
{
    if ls.len() == 0 {
        Seq::empty()
    } else if ls.len() == 1 {
        ls[0]
    } else {
        ls[0] + seq![NodeView::Newline] + join_lines(ls.skip(1))
    }
}

pub proof fn lemma_join_lines_snoc(ls: Seq<Seq<NodeView>>, x: Seq<NodeView>)
    ensures
        join_lines(ls.push(x)) == if ls.len() == 0 {
            x
        } else {
            join_lines(ls) + seq![NodeView::Newline] + x
        },
    decreases ls.len(),
{
    if ls.len() == 0 {
        assert(ls.push(x).len() == 1);
        assert(ls.push(x)[0] == x);
    } else if ls.len() == 1 {
        assert(ls.push(x).skip(1) =~~= seq![x]);
        assert(join_lines(seq![x]) == x);
        assert(ls.push(x).len() == 2);
        assert(join_lines(ls.push(x)) == ls.push(x)[0] + seq![NodeView::Newline] + join_lines(
            ls.push(x).skip(1),
        ));
        assert(join_lines(ls) == ls[0]);
    } else {
        assert(ls.push(x).skip(1) =~~= ls.skip(1).push(x));
        lemma_join_lines_snoc(ls.skip(1), x);
        assert(join_lines(ls) + seq![NodeView::Newline] + x =~= ls[0] + seq![NodeView::Newline]
            + (join_lines(ls.skip(1)) + seq![NodeView::Newline] + x));
    }
}

pub fn join_lines_exec(ls: Vec<Vec<TextNode>>) -> (r: Vec<TextNode>)
    ensures
        r.deep_view() == join_lines(ls.deep_view()),
{
    let ghost lv = ls.deep_view();
    let mut out: Vec<TextNode> = Vec::new();
    let mut i: usize = 0;
    proof {
        assert(lv.take(0) =~~= Seq::<Seq<NodeView>>::empty());
        assert(out.deep_view() =~~= join_lines(lv.take(0)));
    }
    while i < ls.len()
        invariant
            i <= ls.len(),
            lv == ls.deep_view(),
            out.deep_view() == join_lines(lv.take(i as int)),
        decreases ls.len() - i,
    {
        let ghost pre = out.deep_view();
        if i > 0 {
            out.push(TextNode::Newline);
        }
        let line = &ls[i];
        let mut j: usize = 0;
        let ghost mid = out.deep_view();
        while j < line.len()
            invariant
                j <= line.len(),
                line == &ls@[i as int],
                lv == ls.deep_view(),
                i < ls.len(),
                out.deep_view() == mid + lv[i as int].take(j as int),
            decreases line.len() - j,
        {
            let ghost before = out.deep_view();
            out.push(line[j].clone());
            proof {
                assert(out.deep_view() =~~= before.push(lv[i as int][j as int]));
                assert(mid + lv[i as int].take(j + 1) =~~= (mid + lv[i as int].take(
                    j as int,
                )).push(lv[i as int][j as int]));
            }
            j = j + 1;
        }
        proof {
            assert(lv[i as int].take(lv[i as int].len() as int) =~~= lv[i as int]);
            assert(lv.take(i + 1) =~~= lv.take(i as int).push(lv[i as int]));
            lemma_join_lines_snoc(lv.take(i as int), lv[i as int]);
            if i == 0 {
                assert(mid =~~= Seq::<NodeView>::empty());
                assert(out.deep_view() =~~= join_lines(lv.take(1)));
            } else {
                assert(mid =~~= pre.push(NodeView::Newline));
                assert(out.deep_view() =~~= join_lines(lv.take(i as int)) + seq![
                    NodeView::Newline,
                ] + lv[i as int]);
            }
        }
        i = i + 1;
    }
    proof {
        assert(lv.take(ls.len() as int) =~~= lv);
    }
    out
}

pub proof fn lemma_line_text_snoc(line: Seq<NodeView>, n: NodeView)
    ensures
        line_text(line.push(n)) == line_text(line) + node_text(n),
    decreases line.len(),
{
    if line.len() == 0 {
        assert(line.push(n)[0] == n);
        assert(line.push(n).drop_first() =~~= Seq::<NodeView>::empty());
        assert(line_text(line.push(n).drop_first()) =~= Seq::<char>::empty());
        assert(line_text(line.push(n)) =~= node_text(n));
        assert(line_text(line) + node_text(n) =~= node_text(n));
    } else {
        assert(line.push(n).drop_first() =~~= line.drop_first().push(n));
        assert(line.push(n)[0] == line[0]);
        lemma_line_text_snoc(line.drop_first(), n);
        assert(node_text(line[0]) + (line_text(line.drop_first()) + node_text(n)) =~= (node_text(
            line[0],
        ) + line_text(line.drop_first())) + node_text(n));
    }
}

/// The concatenated text of a line, the measure for all column arithmetic.
pub fn text_of_line(line: &Vec<TextNode>) -> (r: String)
    ensures
        r@ == line_text(line.deep_view()),
{
    let ghost lv = line.deep_view();
    let mut out = String::new();
    let mut i: usize = 0;
    proof {
        assert(lv.take(0) =~~= Seq::<NodeView>::empty());
        assert(out@ =~= line_text(lv.take(0)));
    }
    while i < line.len()
        invariant
            i <= line.len(),
            lv == line.deep_view(),
            out@ == line_text(lv.take(i as int)),
        decreases line.len() - i,
    {
        let ghost pre = out@;
        match &line[i] {
            TextNode::Text(t) => {
                out.append(t.as_str());
            },
            _ => {},
        }
        proof {
            assert(lv.take(i + 1) =~~= lv.take(i as int).push(lv[i as int]));
            lemma_line_text_snoc(lv.take(i as int), lv[i as int]);
            assert(out@ =~= pre + node_text(lv[i as int]));
        }
        i = i + 1;
    }
    proof {
        assert(lv.take(line.len() as int) =~~= lv);
    }
    out
}

} // verus!

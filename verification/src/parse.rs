//! The markup tokenizers for the two source dialects.
//!
//! Both grammars share the notion of a *plain run*: a maximal run of
//! characters containing none of `[`, `]` or a newline. The inline dialect
//! reads any bracket span as a chord (a comma-space list inside one span is
//! exploded into several chords); the bracket-everything dialect reads
//! `[ch]...[/ch]` pairs as chords and any other bracket span as a label.
//! A malformed span aborts the whole parse with the offending grammar rule
//! and the remaining unparsed suffix.

use vstd::prelude::*;
use vstd::string::StrSliceExecFns;

use crate::model::{NodeView, TextNode};
use crate::strutil::{has_pat_at, pat_at, split_pat, split_str};

verus! {

/// A character that may stand inside a text run or a bracket span.
pub open spec fn plain_char(c: char) -> bool {
    c != '\n' && c != '[' && c != ']'
}

/// The length of the maximal plain prefix of `s`.
pub open spec fn run_len(s: Seq<char>) -> nat
    decreases s.len(),
{
    if s.len() == 0 {
        0
    } else if !plain_char(s[0]) {
        0
    } else {
        1 + run_len(s.drop_first())
    }
}

pub proof fn lemma_run_len(s: Seq<char>)
    ensures
        run_len(s) <= s.len(),
        forall|j: int| 0 <= j < run_len(s) ==> plain_char(s[j]),
        run_len(s) < s.len() ==> !plain_char(s[run_len(s) as int]),
    decreases s.len(),
{
    if s.len() == 0 || !plain_char(s[0]) {
    } else {
        let d = s.drop_first();
        lemma_run_len(d);
        assert forall|j: int| 0 <= j < run_len(s) implies plain_char(s[j]) by {
            if j > 0 {
                assert(s[j] == d[j - 1]);
            }
        }
        if run_len(s) < s.len() {
            assert(s[run_len(s) as int] == d[run_len(d) as int]);
        }
    }
}

/// A maximal plain run is pinned down by its properties.
pub proof fn lemma_run_len_is(s: Seq<char>, r: int)
    requires
        0 <= r <= s.len(),
        forall|j: int| 0 <= j < r ==> plain_char(s[j]),
        r == s.len() || !plain_char(s[r]),
    ensures
        run_len(s) == r,
    decreases s.len(),
{
    if r == 0 {
    } else {
        assert(plain_char(s[0]));
        lemma_run_len_is(s.drop_first(), r - 1);
    }
}

/// The grammar rule whose tokenization failed.
#[derive(PartialEq, Eq, Structural, Clone, Copy, Debug)]
pub enum GrammarRule {
    /// A bracket span that should have yielded a chord.
    ChordRule,
    /// A bracket span that should have yielded a label.
    LabelRule,
    /// A text run (a stray closing bracket can start no token).
    TextRule,
}

/// A structural parse failure: the rule that failed and the unparsed suffix
/// starting at the offending token.
#[derive(Debug)]
pub struct ParseError {
    pub rule: GrammarRule,
    pub rest: String,
}

/// The outcome of tokenizing a whole input.
pub enum Parsed {
    Nodes(Seq<NodeView>),
    Fail(Seq<char>, GrammarRule),
}

/// Prepends finished nodes to the outcome of tokenizing the rest.
pub open spec fn parsed_cons(ns: Seq<NodeView>, rest: Parsed) -> Parsed {
    match rest {
        Parsed::Nodes(tail) => Parsed::Nodes(ns + tail),
        Parsed::Fail(r, k) => Parsed::Fail(r, k),
    }
}

pub proof fn lemma_cons_empty(p: Parsed)
    ensures
        parsed_cons(Seq::empty(), p) == p,
{
    match p {
        Parsed::Nodes(tail) => {
            assert(Seq::empty() + tail =~= tail);
        },
        Parsed::Fail(_, _) => {},
    }
}

pub proof fn lemma_cons_assoc(a: Seq<NodeView>, b: Seq<NodeView>, p: Parsed)
    ensures
        parsed_cons(a, parsed_cons(b, p)) == parsed_cons(a + b, p),
{
    match p {
        Parsed::Nodes(tail) => {
            assert(a + (b + tail) =~= (a + b) + tail);
        },
        Parsed::Fail(_, _) => {},
    }
}

/// The chords listed in one inline bracket span: the span content split on
/// every comma-space, each piece a chord, a single-space text node between
/// adjacent chords.
pub open spec fn chord_list_nodes(pieces: Seq<Seq<char>>) -> Seq<NodeView>
    decreases pieces.len(),
{
    if pieces.len() == 0 {
        Seq::empty()
    } else if pieces.len() == 1 {
        seq![NodeView::Chord(pieces[0])]
    } else {
        seq![NodeView::Chord(pieces[0]), NodeView::Text(seq![' '])] + chord_list_nodes(
            pieces.skip(1),
        )
    }
}

/// The nodes an inline chord span with content `content` expands to.
pub open spec fn explode_chord(content: Seq<char>) -> Seq<NodeView> {
    chord_list_nodes(split_pat(content, seq![',', ' ']))
}

/// Tokenization of the inline dialect: any nonempty bracket span is a chord
/// span, a newline is a separator, a maximal plain run is text.
pub open spec fn inline_tokens(s: Seq<char>) -> Parsed
    decreases s.len(),
    via inline_tokens_dec
{
    if s.len() == 0 {
        Parsed::Nodes(Seq::empty())
    } else if s[0] == '[' {
        let r = run_len(s.drop_first()) as int;
        if r == 0 {
            Parsed::Fail(s, GrammarRule::ChordRule)
        } else if 1 + r < s.len() && s[1 + r] == ']' {
            parsed_cons(explode_chord(s.subrange(1, 1 + r)), inline_tokens(s.skip(2 + r)))
        } else {
            Parsed::Fail(s, GrammarRule::ChordRule)
        }
    } else if s[0] == '\n' {
        parsed_cons(seq![NodeView::Newline], inline_tokens(s.drop_first()))
    } else if s[0] == ']' {
        Parsed::Fail(s, GrammarRule::TextRule)
    } else {
        let r = run_len(s) as int;
        parsed_cons(seq![NodeView::Text(s.take(r))], inline_tokens(s.skip(r)))
    }
}

#[via_fn]
proof fn inline_tokens_dec(s: Seq<char>) {
    if s.len() > 0 {
        lemma_run_len(s);
        lemma_run_len(s.drop_first());
    }
}

/// Finds the end of the maximal plain run starting at `from`.
fn scan_run(s: &str, from: usize) -> (e: usize)
    requires
        from <= s@.len(),
    ensures
        from <= e <= s@.len(),
        e - from == run_len(s@.skip(from as int)),
{
    let n = s.unicode_len();
    let mut j = from;
    while j < n
        invariant
            from <= j <= n,
            n == s@.len(),
            forall|k: int| from <= k < j ==> plain_char(s@[k]),
        decreases n - j,
    {
        let c = s.get_char(j);
        if c == '\n' || c == '[' || c == ']' {
            proof {
                let t = s@.skip(from as int);
                assert forall|k: int| 0 <= k < j - from implies plain_char(t[k]) by {
                    assert(t[k] == s@[from + k]);
                }
                assert(t[j - from] == s@[j as int]);
                lemma_run_len_is(t, j - from);
            }
            return j;
        }
        j = j + 1;
    }
    proof {
        let t = s@.skip(from as int);
        assert forall|k: int| 0 <= k < n - from implies plain_char(t[k]) by {
            assert(t[k] == s@[from + k]);
        }
        lemma_run_len_is(t, n - from);
    }
    n
}

pub proof fn lemma_chord_list_take(p: Seq<Seq<char>>, k: int)
    requires
        0 <= k < p.len(),
    ensures
        chord_list_nodes(p.take(k + 1)) == chord_list_nodes(p.take(k)) + (if k == 0 {
            seq![NodeView::Chord(p[0])]
        } else {
            seq![NodeView::Text(seq![' ']), NodeView::Chord(p[k])]
        }),
    decreases k,
{
    if k == 0 {
        assert(p.take(1) =~~= seq![p[0]]);
        assert(p.take(0) =~~= Seq::<Seq<char>>::empty());
        assert(chord_list_nodes(p.take(0)) + seq![NodeView::Chord(p[0])] =~= seq![
            NodeView::Chord(p[0]),
        ]);
    } else {
        let q = p.skip(1);
        lemma_chord_list_take(q, k - 1);
        assert(p.take(k + 1).skip(1) =~~= q.take(k));
        assert(p.take(k).skip(1) =~~= q.take(k - 1));
        assert(p.take(k + 1)[0] == p[0]);
        assert(p.take(k)[0] == p[0]);
        assert(q[k - 1] == p[k]);
        let head = seq![NodeView::Chord(p[0]), NodeView::Text(seq![' '])];
        assert(chord_list_nodes(p.take(k + 1)) == head + chord_list_nodes(q.take(k)));
        if k == 1 {
            assert(chord_list_nodes(q.take(1)) == chord_list_nodes(q.take(0)) + seq![
                NodeView::Chord(q[0]),
            ]);
            assert(q.take(0) =~~= Seq::<Seq<char>>::empty());
            assert(chord_list_nodes(q.take(1)) =~= seq![NodeView::Chord(q[0])]);
            assert(chord_list_nodes(p.take(1)) == seq![NodeView::Chord(p[0])]) by {
                assert(p.take(1) =~~= seq![p[0]]);
            }
            assert(head + seq![NodeView::Chord(q[0])] =~= seq![NodeView::Chord(p[0])] + seq![
                NodeView::Text(seq![' ']),
                NodeView::Chord(p[1]),
            ]);
        } else {
            assert(chord_list_nodes(p.take(k)) == head + chord_list_nodes(q.take(k - 1)));
            assert(head + (chord_list_nodes(q.take(k - 1)) + seq![
                NodeView::Text(seq![' ']),
                NodeView::Chord(q[k - 1]),
            ]) =~= (head + chord_list_nodes(q.take(k - 1))) + seq![
                NodeView::Text(seq![' ']),
                NodeView::Chord(p[k]),
            ]);
        }
    }
}

/// Appends the chords an inline chord span expands to: its content split on
/// comma-space, a single space between adjacent chords.
fn push_chord_nodes(out: &mut Vec<TextNode>, content: &str)
    ensures
        final(out).deep_view() == old(out).deep_view() + explode_chord(content@),
{
    proof {
        reveal_strlit(", ");
        reveal_strlit(" ");
        assert(", "@ =~= seq![',', ' ']);
    }
    let pieces = split_str(content, ", ");
    let ghost p = pieces.deep_view();
    let ghost base = out.deep_view();
    let mut k: usize = 0;
    proof {
        assert(chord_list_nodes(p.take(0)) =~= Seq::<NodeView>::empty()) by {
            assert(p.take(0) =~~= Seq::<Seq<char>>::empty());
        }
        assert(out.deep_view() =~~= base + chord_list_nodes(p.take(0)));
    }
    while k < pieces.len()
        invariant
            k <= pieces.len(),
            p == pieces.deep_view(),
            out.deep_view() == base + chord_list_nodes(p.take(k as int)),
        decreases pieces.len() - k,
    {
        let ghost pre = out.deep_view();
        if k > 0 {
            out.push(TextNode::Text(" ".to_owned()));
            let piece = pieces[k].clone();
            out.push(TextNode::Chord(piece));
            proof {
                reveal_strlit(" ");
                assert(" "@ =~= seq![' ']);
                lemma_chord_list_take(p, k as int);
                assert(out.deep_view() =~~= pre + seq![
                    NodeView::Text(seq![' ']),
                    NodeView::Chord(p[k as int]),
                ]);
                assert(out.deep_view() =~~= base + chord_list_nodes(p.take(k + 1)));
            }
        } else {
            let piece = pieces[k].clone();
            out.push(TextNode::Chord(piece));
            proof {
                lemma_chord_list_take(p, 0);
                assert(out.deep_view() =~~= pre + seq![NodeView::Chord(p[0])]);
                assert(out.deep_view() =~~= base + chord_list_nodes(p.take(1)));
            }
        }
        k = k + 1;
    }
    proof {
        assert(p.take(p.len() as int) =~~= p);
    }
}

/// Tokenizes inline-dialect markup. On success the returned nodes are exactly
/// the tokenization of the input; a malformed bracket span or a stray closing
/// bracket aborts the parse with the failing rule and the unparsed suffix.
pub fn parse_inline(input: &str) -> (r: Result<Vec<TextNode>, ParseError>)
    ensures
        match r {
            Ok(nodes) => inline_tokens(input@) == Parsed::Nodes(nodes.deep_view()),
            Err(e) => inline_tokens(input@) == Parsed::Fail(e.rest@, e.rule),
        },
{
    let n = input.unicode_len();
    let mut out: Vec<TextNode> = Vec::new();
    let mut i: usize = 0;
    proof {
        assert(input@.skip(0) =~= input@);
        lemma_cons_empty(inline_tokens(input@));
        assert(out.deep_view() =~~= Seq::<NodeView>::empty());
    }
    while i < n
        invariant
            i <= n,
            n == input@.len(),
            inline_tokens(input@) == parsed_cons(
                out.deep_view(),
                inline_tokens(input@.skip(i as int)),
            ),
        decreases n - i,
    {
        let ghost t = input@.skip(i as int);
        proof {
            assert(t[0] == input@[i as int]);
        }
        let c = input.get_char(i);
        if c == '[' {
            proof {
                assert(t.drop_first() =~= input@.skip(i + 1));
            }
            let e = scan_run(input, i + 1);
            let ghost r = run_len(input@.skip(i + 1)) as int;
            if e == i + 1 {
                let rest = input.substring_char(i, n).to_owned();
                proof {
                    assert(rest@ =~= t);
                }
                return Err(ParseError { rule: GrammarRule::ChordRule, rest });
            }
            if e < n && input.get_char(e) == ']' {
                proof {
                    assert(t.subrange(1, 1 + r) =~= input@.subrange(i + 1, e as int));
                    assert(t.skip(2 + r) =~= input@.skip(e + 1));
                }
                let content = input.substring_char(i + 1, e);
                let ghost pre = out.deep_view();
                push_chord_nodes(&mut out, content);
                proof {
                    lemma_cons_assoc(pre, explode_chord(content@), inline_tokens(input@.skip(e + 1)));
                }
                i = e + 1;
            } else {
                let rest = input.substring_char(i, n).to_owned();
                proof {
                    assert(rest@ =~= t);
                }
                return Err(ParseError { rule: GrammarRule::ChordRule, rest });
            }
        } else if c == '\n' {
            proof {
                assert(t.drop_first() =~= input@.skip(i + 1));
            }
            let ghost pre = out.deep_view();
            out.push(TextNode::Newline);
            proof {
                assert(out.deep_view() =~~= pre + seq![NodeView::Newline]);
                lemma_cons_assoc(pre, seq![NodeView::Newline], inline_tokens(input@.skip(i + 1)));
            }
            i = i + 1;
        } else if c == ']' {
            let rest = input.substring_char(i, n).to_owned();
            proof {
                assert(rest@ =~= t);
            }
            return Err(ParseError { rule: GrammarRule::TextRule, rest });
        } else {
            let e = scan_run(input, i);
            let ghost r = run_len(t) as int;
            proof {
                assert(t =~= input@.skip(i as int));
                assert(e - i == run_len(t));
                assert(t.take(r) =~= input@.subrange(i as int, e as int));
                assert(t.skip(r) =~= input@.skip(e as int));
            }
            let piece = input.substring_char(i, e).to_owned();
            let ghost pre = out.deep_view();
            out.push(TextNode::Text(piece));
            proof {
                assert(out.deep_view() =~~= pre + seq![NodeView::Text(t.take(r))]);
                lemma_cons_assoc(
                    pre,
                    seq![NodeView::Text(t.take(r))],
                    inline_tokens(input@.skip(e as int)),
                );
            }
            i = e;
        }
    }
    proof {
        assert(input@.skip(n as int) =~= Seq::<char>::empty());
        assert(out.deep_view() + Seq::<NodeView>::empty() =~~= out.deep_view());
    }
    Ok(out)
}

/// The opening tag of an explicit chord span.
pub open spec fn ch_open() -> Seq<char> {
    seq!['[', 'c', 'h', ']']
}

/// The closing tag of an explicit chord span.
pub open spec fn ch_close() -> Seq<char> {
    seq!['[', '/', 'c', 'h', ']']
}

/// Tokenization of the bracket-everything dialect: an explicit
/// `[ch]...[/ch]` pair is a chord, any other bracket span is a label, a
/// newline is a separator, a maximal plain run is text.
pub open spec fn bracket_tokens(s: Seq<char>) -> Parsed
    decreases s.len(),
    via bracket_tokens_dec
{
    if s.len() == 0 {
        Parsed::Nodes(Seq::empty())
    } else if pat_at(s, ch_open(), 0) {
        let r = run_len(s.skip(4)) as int;
        if r == 0 {
            Parsed::Fail(s, GrammarRule::ChordRule)
        } else if pat_at(s, ch_close(), 4 + r) {
            parsed_cons(seq![NodeView::Chord(s.subrange(4, 4 + r))], bracket_tokens(s.skip(9 + r)))
        } else {
            Parsed::Fail(s, GrammarRule::ChordRule)
        }
    } else if s[0] == '[' {
        let r = run_len(s.drop_first()) as int;
        if r == 0 {
            Parsed::Fail(s, GrammarRule::LabelRule)
        } else if 1 + r < s.len() && s[1 + r] == ']' {
            parsed_cons(seq![NodeView::Label(s.subrange(1, 1 + r))], bracket_tokens(s.skip(2 + r)))
        } else {
            Parsed::Fail(s, GrammarRule::LabelRule)
        }
    } else if s[0] == '\n' {
        parsed_cons(seq![NodeView::Newline], bracket_tokens(s.drop_first()))
    } else if s[0] == ']' {
        Parsed::Fail(s, GrammarRule::TextRule)
    } else {
        let r = run_len(s) as int;
        parsed_cons(seq![NodeView::Text(s.take(r))], bracket_tokens(s.skip(r)))
    }
}

#[via_fn]
proof fn bracket_tokens_dec(s: Seq<char>) {
    if s.len() > 0 {
        lemma_run_len(s);
        lemma_run_len(s.drop_first());
        if s.len() >= 4 {
            lemma_run_len(s.skip(4));
        }
    }
}

/// Tokenizes bracket-everything-dialect markup. On success the returned
/// nodes are exactly the tokenization of the input; a malformed span or a
/// stray closing bracket aborts the parse with the failing rule and the
/// unparsed suffix.
pub fn parse_bracket(input: &str) -> (r: Result<Vec<TextNode>, ParseError>)
    ensures
        match r {
            Ok(nodes) => bracket_tokens(input@) == Parsed::Nodes(nodes.deep_view()),
            Err(e) => bracket_tokens(input@) == Parsed::Fail(e.rest@, e.rule),
        },
{
    let n = input.unicode_len();
    let mut out: Vec<TextNode> = Vec::new();
    let mut i: usize = 0;
    proof {
        assert(input@.skip(0) =~= input@);
        lemma_cons_empty(bracket_tokens(input@));
        assert(out.deep_view() =~~= Seq::<NodeView>::empty());
    }
    while i < n
        invariant
            i <= n,
            n == input@.len(),
            bracket_tokens(input@) == parsed_cons(
                out.deep_view(),
                bracket_tokens(input@.skip(i as int)),
            ),
        decreases n - i,
    {
        let ghost t = input@.skip(i as int);
        proof {
            assert(t[0] == input@[i as int]);
            reveal_strlit("[ch]");
            reveal_strlit("[/ch]");
            assert("[ch]"@ =~= ch_open());
            assert("[/ch]"@ =~= ch_close());
        }
        let c = input.get_char(i);
        if has_pat_at(input, "[ch]", i) {
            proof {
                crate::strutil::lemma_pat_at_skip(input@, ch_open(), i as int, i as int);
                assert(pat_at(t, ch_open(), 0));
                assert(t.skip(4) =~= input@.skip(i + 4));
            }
            let e = scan_run(input, i + 4);
            let ghost r = run_len(input@.skip(i + 4)) as int;
            if e == i + 4 {
                let rest = input.substring_char(i, n).to_owned();
                proof {
                    assert(rest@ =~= t);
                }
                return Err(ParseError { rule: GrammarRule::ChordRule, rest });
            }
            if has_pat_at(input, "[/ch]", e) {
                proof {
                    crate::strutil::lemma_pat_at_skip(input@, ch_close(), e as int, i as int);
                    assert(pat_at(t, ch_close(), 4 + r));
                    assert(t.subrange(4, 4 + r) =~= input@.subrange(i + 4, e as int));
                    assert(t.skip(9 + r) =~= input@.skip(e + 5));
                }
                let content = input.substring_char(i + 4, e).to_owned();
                let ghost pre = out.deep_view();
                out.push(TextNode::Chord(content));
                proof {
                    assert(out.deep_view() =~~= pre + seq![
                        NodeView::Chord(input@.subrange(i + 4, e as int)),
                    ]);
                    lemma_cons_assoc(
                        pre,
                        seq![NodeView::Chord(input@.subrange(i + 4, e as int))],
                        bracket_tokens(input@.skip(e + 5)),
                    );
                }
                i = e + 5;
            } else {
                proof {
                    if 4 + r + 5 <= t.len() {
                        crate::strutil::lemma_pat_at_skip(input@, ch_close(), e as int, i as int);
                    }
                    assert(!pat_at(t, ch_close(), 4 + r));
                }
                let rest = input.substring_char(i, n).to_owned();
                proof {
                    assert(rest@ =~= t);
                }
                return Err(ParseError { rule: GrammarRule::ChordRule, rest });
            }
        } else if c == '[' {
            proof {
                if i + 4 <= n {
                    crate::strutil::lemma_pat_at_skip(input@, ch_open(), i as int, i as int);
                }
                assert(!pat_at(t, ch_open(), 0));
                assert(t.drop_first() =~= input@.skip(i + 1));
            }
            let e = scan_run(input, i + 1);
            let ghost r = run_len(input@.skip(i + 1)) as int;
            if e == i + 1 {
                let rest = input.substring_char(i, n).to_owned();
                proof {
                    assert(rest@ =~= t);
                }
                return Err(ParseError { rule: GrammarRule::LabelRule, rest });
            }
            if e < n && input.get_char(e) == ']' {
                proof {
                    assert(t.subrange(1, 1 + r) =~= input@.subrange(i + 1, e as int));
                    assert(t.skip(2 + r) =~= input@.skip(e + 1));
                }
                let content = input.substring_char(i + 1, e).to_owned();
                let ghost pre = out.deep_view();
                out.push(TextNode::Label(content));
                proof {
                    assert(out.deep_view() =~~= pre + seq![
                        NodeView::Label(input@.subrange(i + 1, e as int)),
                    ]);
                    lemma_cons_assoc(
                        pre,
                        seq![NodeView::Label(input@.subrange(i + 1, e as int))],
                        bracket_tokens(input@.skip(e + 1)),
                    );
                }
                i = e + 1;
            } else {
                let rest = input.substring_char(i, n).to_owned();
                proof {
                    assert(rest@ =~= t);
                }
                return Err(ParseError { rule: GrammarRule::LabelRule, rest });
            }
        } else if c == '\n' {
            proof {
                assert(t.drop_first() =~= input@.skip(i + 1));
            }
            let ghost pre = out.deep_view();
            out.push(TextNode::Newline);
            proof {
                assert(out.deep_view() =~~= pre + seq![NodeView::Newline]);
                lemma_cons_assoc(pre, seq![NodeView::Newline], bracket_tokens(input@.skip(i + 1)));
            }
            i = i + 1;
        } else if c == ']' {
            let rest = input.substring_char(i, n).to_owned();
            proof {
                assert(rest@ =~= t);
            }
            return Err(ParseError { rule: GrammarRule::TextRule, rest });
        } else {
            let e = scan_run(input, i);
            let ghost r = run_len(t) as int;
            proof {
                assert(e - i == run_len(t));
                assert(t.take(r) =~= input@.subrange(i as int, e as int));
                assert(t.skip(r) =~= input@.skip(e as int));
            }
            let piece = input.substring_char(i, e).to_owned();
            let ghost pre = out.deep_view();
            out.push(TextNode::Text(piece));
            proof {
                assert(out.deep_view() =~~= pre + seq![NodeView::Text(t.take(r))]);
                lemma_cons_assoc(
                    pre,
                    seq![NodeView::Text(t.take(r))],
                    bracket_tokens(input@.skip(e as int)),
                );
            }
            i = e;
        }
    }
    proof {
        assert(input@.skip(n as int) =~= Seq::<char>::empty());
        assert(out.deep_view() + Seq::<NodeView>::empty() =~~= out.deep_view());
    }
    Ok(out)
}

} // verus!

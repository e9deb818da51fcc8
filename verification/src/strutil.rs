//! Character and string helpers shared by the parser, the realigner and the
//! transposer: whitespace tests, substring search, splitting, joining and
//! fixed-pattern replacement, all over character sequences.

use vstd::prelude::*;
use vstd::string::StrSliceExecFns;
use vstd::string::StringExecFns;

verus! {

/// The characters with the Unicode `White_Space` property, i.e. what
/// `str::trim_end` removes.
pub open spec fn is_space_char(c: char) -> bool {
    ||| c as u32 == 0x20
    ||| (0x9 <= c as u32 && c as u32 <= 0xd)
    ||| c as u32 == 0x85
    ||| c as u32 == 0xa0
    ||| c as u32 == 0x1680
    ||| (0x2000 <= c as u32 && c as u32 <= 0x200a)
    ||| c as u32 == 0x2028
    ||| c as u32 == 0x2029
    ||| c as u32 == 0x202f
    ||| c as u32 == 0x205f
    ||| c as u32 == 0x3000
}

pub fn is_space(c: char) -> (r: bool)
    ensures
        r == is_space_char(c),
{
    let u = c as u32;
    u == 0x20 || (0x9 <= u && u <= 0xd) || u == 0x85 || u == 0xa0 || u == 0x1680 || (0x2000 <= u
        && u <= 0x200a) || u == 0x2028 || u == 0x2029 || u == 0x202f || u == 0x205f || u == 0x3000
}

/// Whether every character of `s` is whitespace, i.e. `s` trims to nothing.
pub open spec fn all_space(s: Seq<char>) -> bool {
    forall|i: int| 0 <= i < s.len() ==> is_space_char(s[i])
}

pub fn str_all_space(s: &str) -> (r: bool)
    ensures
        r == all_space(s@),
{
    let n = s.unicode_len();
    let mut i: usize = 0;
    while i < n
        invariant
            i <= n,
            n == s@.len(),
            forall|j: int| 0 <= j < i ==> is_space_char(s@[j]),
        decreases n - i,
    {
        if !is_space(s.get_char(i)) {
            return false;
        }
        i = i + 1;
    }
    true
}

/// Whether `pat` occurs in `s` starting at position `i`.
pub open spec fn pat_at(s: Seq<char>, pat: Seq<char>, i: int) -> bool {
    0 <= i && i + pat.len() <= s.len() && s.subrange(i, i + pat.len()) == pat
}

pub fn has_pat_at(s: &str, pat: &str, i: usize) -> (r: bool)
    requires
        i <= s@.len(),
    ensures
        r == pat_at(s@, pat@, i as int),
{
    let n = s.unicode_len();
    let m = pat.unicode_len();
    if m > n - i {
        return false;
    }
    let mut k: usize = 0;
    while k < m
        invariant
            k <= m,
            m == pat@.len(),
            n == s@.len(),
            i + m <= n,
            forall|j: int| 0 <= j < k ==> s@[i + j] == pat@[j],
        decreases m - k,
    {
        if s.get_char(i + k) != pat.get_char(k) {
            assert(s@.subrange(i as int, i + pat@.len()) != pat@) by {
                assert(s@.subrange(i as int, i + pat@.len())[k as int] != pat@[k as int]);
            }
            return false;
        }
        k = k + 1;
    }
    assert(s@.subrange(i as int, i + pat@.len()) =~= pat@);
    true
}

/// Whether two strings hold the same characters.
pub fn str_eq(s: &str, t: &str) -> (r: bool)
    ensures
        r == (s@ == t@),
{
    let n = s.unicode_len();
    if n != t.unicode_len() {
        return false;
    }
    let mut i: usize = 0;
    while i < n
        invariant
            i <= n,
            n == s@.len() == t@.len(),
            forall|j: int| 0 <= j < i ==> s@[j] == t@[j],
        decreases n - i,
    {
        if s.get_char(i) != t.get_char(i) {
            return false;
        }
        i = i + 1;
    }
    assert(s@ =~= t@);
    true
}

/// The pieces of `s` split on every occurrence of `pat`, scanned left to
/// right without overlap; always at least one piece.
pub open spec fn split_pat(s: Seq<char>, pat: Seq<char>) -> Seq<Seq<char>>
    decreases s.len(),
{
    if s.len() == 0 || pat.len() == 0 {
        seq![s]
    } else if pat_at(s, pat, 0) {
        seq![Seq::<char>::empty()] + split_pat(s.skip(pat.len() as int), pat)
    } else {
        let r = split_pat(s.drop_first(), pat);
        seq![seq![s[0]] + r[0]] + r.skip(1)
    }
}

pub proof fn lemma_split_pat_len(s: Seq<char>, pat: Seq<char>)
    ensures
        split_pat(s, pat).len() >= 1,
    decreases s.len(),
{
    if s.len() == 0 || pat.len() == 0 {
    } else if pat_at(s, pat, 0) {
    } else {
        lemma_split_pat_len(s.drop_first(), pat);
    }
}

/// Shifting a pattern test into a suffix.
pub proof fn lemma_pat_at_skip(s: Seq<char>, pat: Seq<char>, i: int, j: int)
    requires
        0 <= j <= i,
        i + pat.len() <= s.len(),
    ensures
        pat_at(s, pat, i) == pat_at(s.skip(j), pat, i - j),
{
    assert(s.subrange(i, i + pat.len() as int) =~= s.skip(j).subrange(
        i - j,
        i - j + pat.len() as int,
    ));
}

/// The first piece extended at the front by `x`.
pub open spec fn prepend_first(x: Seq<char>, pieces: Seq<Seq<char>>) -> Seq<Seq<char>> {
    seq![x + pieces[0]] + pieces.skip(1)
}

pub fn split_str(s: &str, pat: &str) -> (r: Vec<String>)
    requires
        pat@.len() >= 1,
    ensures
        r.deep_view() == split_pat(s@, pat@),
{
    let n = s.unicode_len();
    let m = pat.unicode_len();
    let mut out: Vec<String> = Vec::new();
    let mut cur: String = String::new();
    let mut i: usize = 0;
    proof {
        assert(s@.skip(0) =~= s@);
        lemma_split_pat_len(s@, pat@);
        assert(out.deep_view() + prepend_first(cur@, split_pat(s@, pat@)) =~~= split_pat(
            s@,
            pat@,
        ));
    }
    while i < n
        invariant
            i <= n,
            n == s@.len(),
            m == pat@.len(),
            m >= 1,
            split_pat(s@, pat@) == out.deep_view() + prepend_first(
                cur@,
                split_pat(s@.skip(i as int), pat@),
            ),
        decreases n - i,
    {
        let ghost pre = out.deep_view() + prepend_first(cur@, split_pat(s@.skip(i as int), pat@));
        if has_pat_at(s, pat, i) {
            proof {
                lemma_pat_at_skip(s@, pat@, i as int, i as int);
                assert(pat_at(s@.skip(i as int), pat@, 0));
                assert(s@.skip(i as int).skip(m as int) =~= s@.skip(i + m));
                lemma_split_pat_len(s@.skip(i + m), pat@);
            }
            let ghost p = split_pat(s@.skip(i + m), pat@);
            out.push(cur);
            cur = String::new();
            proof {
                assert(prepend_first(Seq::<char>::empty(), p) =~~= p);
                assert(out.deep_view() + prepend_first(cur@, p) =~~= pre);
            }
            i = i + m;
        } else {
            proof {
                if pat@.len() + i <= s@.len() {
                    lemma_pat_at_skip(s@, pat@, i as int, i as int);
                }
                assert(!pat_at(s@.skip(i as int), pat@, 0));
                assert(s@.skip(i as int).drop_first() =~= s@.skip(i + 1));
                assert(s@.skip(i as int)[0] == s@[i as int]);
                lemma_split_pat_len(s@.skip(i + 1), pat@);
            }
            let ghost p = split_pat(s@.skip(i + 1), pat@);
            let ghost old_cur = cur@;
            let piece = s.substring_char(i, i + 1);
            cur.append(piece);
            proof {
                assert(piece@ =~= seq![s@[i as int]]);
                assert(cur@ == old_cur + seq![s@[i as int]]);
                assert(out.deep_view() + prepend_first(cur@, p) =~~= pre);
            }
            i = i + 1;
        }
    }
    proof {
        assert(s@.skip(n as int) =~= Seq::<char>::empty());
        assert(prepend_first(cur@, split_pat(Seq::<char>::empty(), pat@)) =~~= seq![cur@]);
    }
    out.push(cur);
    proof {
        assert(out.deep_view() =~~= split_pat(s@, pat@));
    }
    out
}

/// The pieces joined with `sep` between each adjacent pair.
pub open spec fn join_pat(pieces: Seq<Seq<char>>, sep: Seq<char>) -> Seq<char>
    decreases pieces.len(),
{
    if pieces.len() == 0 {
        Seq::empty()
    } else if pieces.len() == 1 {
        pieces[0]
    } else {
        pieces[0] + sep + join_pat(pieces.skip(1), sep)
    }
}

pub proof fn lemma_join_snoc(pieces: Seq<Seq<char>>, x: Seq<char>, sep: Seq<char>)
    ensures
        join_pat(pieces.push(x), sep) == if pieces.len() == 0 {
            x
        } else {
            join_pat(pieces, sep) + sep + x
        },
    decreases pieces.len(),
{
    if pieces.len() == 0 {
        assert(pieces.push(x).len() == 1);
        assert(pieces.push(x)[0] == x);
    } else if pieces.len() == 1 {
        assert(pieces.push(x).skip(1) =~~= seq![x]);
        assert(join_pat(seq![x], sep) == x);
        assert(pieces.push(x).len() == 2);
        assert(join_pat(pieces.push(x), sep) == pieces.push(x)[0] + sep + join_pat(
            pieces.push(x).skip(1),
            sep,
        ));
        assert(join_pat(pieces.push(x), sep) == pieces[0] + sep + x);
    } else {
        assert(pieces.push(x).skip(1) =~~= pieces.skip(1).push(x));
        lemma_join_snoc(pieces.skip(1), x, sep);
        assert(join_pat(pieces, sep) + sep + x =~= pieces[0] + sep + (join_pat(pieces.skip(1), sep)
            + sep + x));
    }
}

pub fn join_with(parts: &Vec<String>, sep: &str) -> (r: String)
    ensures
        r@ == join_pat(parts.deep_view(), sep@),
{
    let mut out = String::new();
    let mut i: usize = 0;
    while i < parts.len()
        invariant
            i <= parts.len(),
            out@ == join_pat(parts.deep_view().take(i as int), sep@),
        decreases parts.len() - i,
    {
        let ghost taken = parts.deep_view().take(i as int);
        if i > 0 {
            out.append(sep);
        }
        out.append(parts[i].as_str());
        proof {
            assert(parts.deep_view().take(i + 1) =~~= taken.push(parts.deep_view()[i as int]));
            lemma_join_snoc(taken, parts.deep_view()[i as int], sep@);
        }
        i = i + 1;
    }
    proof {
        assert(parts.deep_view().take(parts.len() as int) =~~= parts.deep_view());
    }
    out
}

/// `s` with every occurrence of `pat` replaced by `sub`, scanned left to
/// right without overlap.
pub open spec fn replace_pat(s: Seq<char>, pat: Seq<char>, sub: Seq<char>) -> Seq<char>
    decreases s.len(),
{
    if s.len() == 0 || pat.len() == 0 {
        s
    } else if pat_at(s, pat, 0) {
        sub + replace_pat(s.skip(pat.len() as int), pat, sub)
    } else {
        seq![s[0]] + replace_pat(s.drop_first(), pat, sub)
    }
}

pub fn replace_all(s: &str, pat: &str, sub: &str) -> (r: String)
    requires
        pat@.len() >= 1,
    ensures
        r@ == replace_pat(s@, pat@, sub@),
{
    let n = s.unicode_len();
    let m = pat.unicode_len();
    let mut out = String::new();
    let mut i: usize = 0;
    proof {
        assert(s@.skip(0) =~= s@);
        assert(out@ + replace_pat(s@, pat@, sub@) =~= replace_pat(s@, pat@, sub@));
    }
    while i < n
        invariant
            i <= n,
            n == s@.len(),
            m == pat@.len(),
            m >= 1,
            replace_pat(s@, pat@, sub@) == out@ + replace_pat(s@.skip(i as int), pat@, sub@),
        decreases n - i,
    {
        let ghost pre = out@ + replace_pat(s@.skip(i as int), pat@, sub@);
        if has_pat_at(s, pat, i) {
            proof {
                lemma_pat_at_skip(s@, pat@, i as int, i as int);
                assert(pat_at(s@.skip(i as int), pat@, 0));
                assert(s@.skip(i as int).skip(m as int) =~= s@.skip(i + m));
            }
            out.append(sub);
            proof {
                assert(out@ + replace_pat(s@.skip(i + m), pat@, sub@) =~= pre);
            }
            i = i + m;
        } else {
            proof {
                if pat@.len() + i <= s@.len() {
                    lemma_pat_at_skip(s@, pat@, i as int, i as int);
                }
                assert(!pat_at(s@.skip(i as int), pat@, 0));
                assert(s@.skip(i as int).drop_first() =~= s@.skip(i + 1));
                assert(s@.skip(i as int)[0] == s@[i as int]);
            }
            let piece = s.substring_char(i, i + 1);
            out.append(piece);
            proof {
                assert(piece@ =~= seq![s@[i as int]]);
                assert(out@ + replace_pat(s@.skip(i + 1), pat@, sub@) =~= pre);
            }
            i = i + 1;
        }
    }
    proof {
        assert(s@.skip(n as int) =~= Seq::<char>::empty());
        assert(out@ + replace_pat(Seq::<char>::empty(), pat@, sub@) =~= out@);
    }
    out
}

/// A case-insensitive occurrence of the word "chorus" starting at `i`.
pub open spec fn chorus_at(s: Seq<char>, i: int) -> bool {
    &&& 0 <= i
    &&& i + 6 <= s.len()
    &&& (s[i] == 'c' || s[i] == 'C')
    &&& (s[i + 1] == 'h' || s[i + 1] == 'H')
    &&& (s[i + 2] == 'o' || s[i + 2] == 'O')
    &&& (s[i + 3] == 'r' || s[i + 3] == 'R')
    &&& (s[i + 4] == 'u' || s[i + 4] == 'U')
    &&& (s[i + 5] == 's' || s[i + 5] == 'S')
}

/// A label is recognized as a chorus marker when it contains "chorus" in any
/// letter case.
pub open spec fn is_chorus_label(s: Seq<char>) -> bool {
    exists|i: int| chorus_at(s, i)
}

pub fn contains_chorus(s: &str) -> (r: bool)
    ensures
        r == is_chorus_label(s@),
{
    let n = s.unicode_len();
    if n < 6 {
        return false;
    }
    let mut i: usize = 0;
    while i <= n - 6
        invariant
            n == s@.len(),
            n >= 6,
            i <= n,
            forall|j: int| 0 <= j < i ==> !chorus_at(s@, j),
        decreases n - i,
    {
        let c0 = s.get_char(i);
        let c1 = s.get_char(i + 1);
        let c2 = s.get_char(i + 2);
        let c3 = s.get_char(i + 3);
        let c4 = s.get_char(i + 4);
        let c5 = s.get_char(i + 5);
        if (c0 == 'c' || c0 == 'C') && (c1 == 'h' || c1 == 'H') && (c2 == 'o' || c2 == 'O') && (c3
            == 'r' || c3 == 'R') && (c4 == 'u' || c4 == 'U') && (c5 == 's' || c5 == 'S') {
            assert(chorus_at(s@, i as int));
            return true;
        }
        i = i + 1;
    }
    false
}

} // verus!

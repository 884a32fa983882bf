//! Text canonicalization for the equivalence heuristic, and literal
//! substitution.
//!
//! A changed block's removed and added line groups are each normalized into
//! one string: every line loses a leading line-comment marker, the lines are
//! joined with single spaces, every run of two or more whitespace characters
//! collapses to one space, and `"( "` contracts to `"("` (an artifact of
//! reflowed call arguments).

use vstd::prelude::*;
use vstd::std_specs::iter::IteratorSpec;

verus! {

/// Whitespace for the collapsing heuristic: the ASCII whitespace characters.
pub open spec fn is_diff_ws(c: char) -> bool {
    c == ' ' || c == '\t' || c == '\n' || c == '\r' || c == '\u{b}' || c == '\u{c}'
}

/// The length of the run of whitespace at the start of `s`.
pub open spec fn ws_prefix_len(s: Seq<char>) -> int
    decreases s.len(),
{
    if s.len() == 0 || !is_diff_ws(s[0]) {
        0
    } else {
        1 + ws_prefix_len(s.drop_first())
    }
}

/// A line with leading whitespace removed, and then a leading `"// "`
/// comment marker removed if one is present.
pub open spec fn strip_comment_marker(l: Seq<char>) -> Seq<char> {
    let t = l.skip(ws_prefix_len(l));
    if t.len() >= 3 && t[0] == '/' && t[1] == '/' && t[2] == ' ' {
        t.skip(3)
    } else {
        t
    }
}

pub open spec fn strip_comments(ls: Seq<Seq<char>>) -> Seq<Seq<char>> {
    ls.map_values(|l: Seq<char>| strip_comment_marker(l))
}

/// The lines joined with a single space between consecutive lines.
pub open spec fn join_spaced(ls: Seq<Seq<char>>) -> Seq<char>
    decreases ls.len(),
{
    if ls.len() == 0 {
        Seq::<char>::empty()
    } else if ls.len() == 1 {
        ls[0]
    } else {
        ls[0] + seq![' '] + join_spaced(ls.drop_first())
    }
}

/// Every run of two or more whitespace characters collapsed into a single
/// space; a lone whitespace character is left as it is.
pub open spec fn collapse_ws(s: Seq<char>) -> Seq<char>
    decreases s.len(),
{
    if s.len() == 0 {
        Seq::<char>::empty()
    } else if s.len() >= 2 && is_diff_ws(s[0]) && is_diff_ws(s[1]) {
        collapse_ws(seq![' '] + s.skip(2))
    } else {
        seq![s[0]] + collapse_ws(s.drop_first())
    }
}

/// Every occurrence of `"( "` contracted to `"("`, scanning left to right
/// over non-overlapping occurrences.
pub open spec fn fix_paren(s: Seq<char>) -> Seq<char>
    decreases s.len(),
{
    if s.len() >= 2 && s[0] == '(' && s[1] == ' ' {
        seq!['('] + fix_paren(s.skip(2))
    } else if s.len() >= 1 {
        seq![s[0]] + fix_paren(s.drop_first())
    } else {
        Seq::<char>::empty()
    }
}

/// Every non-overlapping occurrence of `pat` in `s`, scanning left to
/// right, replaced by `rep`. With an empty `pat`, `s` itself.
pub open spec fn replace_lit(s: Seq<char>, pat: Seq<char>, rep: Seq<char>) -> Seq<char>
    decreases s.len(),
{
    if pat.len() == 0 || s.len() < pat.len() {
        s
    } else if s.take(pat.len() as int) == pat {
        rep + replace_lit(s.skip(pat.len() as int), pat, rep)
    } else {
        seq![s[0]] + replace_lit(s.drop_first(), pat, rep)
    }
}

/// The full canonicalization pipeline applied to a group of lines.
pub open spec fn normalize_lines(ls: Seq<Seq<char>>) -> Seq<char> {
    fix_paren(collapse_ws(join_spaced(strip_comments(ls))))
}

pub proof fn lemma_join_spaced_push(ls: Seq<Seq<char>>, x: Seq<char>)
    ensures
        join_spaced(ls.push(x)) == if ls.len() == 0 {
            x
        } else {
            join_spaced(ls) + seq![' '] + x
        },
    decreases ls.len(),
{
    if ls.len() == 0 {
        assert(join_spaced(ls.push(x)) == ls.push(x)[0]);
    } else if ls.len() == 1 {
        assert(ls.push(x).drop_first() =~= seq![x]);
        assert(join_spaced(seq![x]) == x);
        assert(join_spaced(ls.push(x)) == ls[0] + seq![' '] + x);
    } else {
        lemma_join_spaced_push(ls.drop_first(), x);
        assert(ls.push(x).drop_first() =~= ls.drop_first().push(x));
        assert(ls[0] + seq![' '] + (join_spaced(ls.drop_first()) + seq![' '] + x)
            =~= (ls[0] + seq![' '] + join_spaced(ls.drop_first())) + seq![' '] + x);
    }
}

proof fn lemma_ws_prefix_len_at(s: Seq<char>, i: int)
    requires
        0 <= i <= s.len(),
        forall|j: int| 0 <= j < i ==> is_diff_ws(s[j]),
        i == s.len() || !is_diff_ws(s[i]),
    ensures
        ws_prefix_len(s) == i,
    decreases s.len(),
{
    if i == 0 {
    } else {
        assert(is_diff_ws(s[0]));
        lemma_ws_prefix_len_at(s.drop_first(), i - 1);
    }
}

/// The characters of a string, for building character vectors from literals.
pub fn chars_of(s: &str) -> (r: Vec<char>)
    ensures
        r@ == s@,
{
    broadcast use vstd::string::axiom_spec_iter;
    broadcast use vstd::string::next_postcondition;

    let mut it = s.chars();
    let mut r: Vec<char> = Vec::new();
    let mut done = false;
    while !done
        invariant
            r@ + it.remaining() == s@,
            done ==> it.remaining().len() == 0,
        decreases s@.len() - r@.len(), (if done { 0int } else { 1int }),
    {
        match it.next() {
            Some(c) => {
                r.push(c);
                proof {
                    assert(r@ + it.remaining() =~= s@);
                }
            },
            None => {
                done = true;
            },
        }
    }
    proof {
        assert(r@ =~= s@);
    }
    r
}

pub fn is_ws_char(c: char) -> (r: bool)
    ensures
        r == is_diff_ws(c),
{
    c == ' ' || c == '\t' || c == '\n' || c == '\r' || c == '\u{b}' || c == '\u{c}'
}

/// A copy of `v[from..to]`.
pub fn copy_range(v: &Vec<char>, from: usize, to: usize) -> (r: Vec<char>)
    requires
        from <= to <= v@.len(),
    ensures
        r@ == v@.subrange(from as int, to as int),
{
    let mut r: Vec<char> = Vec::new();
    let mut j = from;
    while j < to
        invariant
            from <= j <= to <= v@.len(),
            r@ == v@.subrange(from as int, j as int),
        decreases to - j,
    {
        r.push(v[j]);
        proof {
            assert(r@ =~= v@.subrange(from as int, j + 1));
        }
        j += 1;
    }
    r
}

pub fn char_vecs_equal(a: &Vec<char>, b: &Vec<char>) -> (r: bool)
    ensures
        r == (a@ == b@),
{
    if a.len() != b.len() {
        return false;
    }
    let mut j: usize = 0;
    while j < a.len()
        invariant
            0 <= j <= a@.len(),
            a@.len() == b@.len(),
            forall|k: int| 0 <= k < j ==> a@[k] == b@[k],
        decreases a@.len() - j,
    {
        if a[j] != b[j] {
            return false;
        }
        j += 1;
    }
    proof {
        assert(a@ =~= b@);
    }
    true
}

/// Remove leading whitespace and then a leading `"// "` marker, if any.
pub fn strip_comment(l: &Vec<char>) -> (r: Vec<char>)
    ensures
        r@ == strip_comment_marker(l@),
{
    let mut i: usize = 0;
    while i < l.len() && is_ws_char(l[i])
        invariant
            0 <= i <= l@.len(),
            forall|j: int| 0 <= j < i ==> is_diff_ws(l@[j]),
        decreases l@.len() - i,
    {
        i += 1;
    }
    proof {
        lemma_ws_prefix_len_at(l@, i as int);
    }
    let start = if l.len() >= 3 && i <= l.len() - 3 && l[i] == '/' && l[i + 1] == '/' && l[i + 2]
        == ' ' {
        i + 3
    } else {
        i
    };
    let r = copy_range(l, start, l.len());
    proof {
        let t = l@.skip(i as int);
        assert(t.len() == l@.len() - i);
        if t.len() >= 3 && t[0] == '/' && t[1] == '/' && t[2] == ' ' {
            assert(start == i + 3);
            assert(r@ =~= t.skip(3));
        } else {
            assert(start == i);
            assert(r@ =~= t);
        }
    }
    r
}

/// Collapse every run of two or more whitespace characters to one space.
pub fn collapse_whitespace(s: &Vec<char>) -> (r: Vec<char>)
    ensures
        r@ == collapse_ws(s@),
{
    let mut out: Vec<char> = Vec::new();
    if s.len() == 0 {
        return out;
    }
    let mut p: char = s[0];
    let mut i: usize = 1;
    proof {
        assert(seq![p] + s@.skip(1) =~= s@);
        assert(out@ + collapse_ws(s@) =~= collapse_ws(s@));
    }
    while i < s.len()
        invariant
            1 <= i <= s@.len(),
            collapse_ws(s@) == out@ + collapse_ws(seq![p] + s@.skip(i as int)),
        decreases s@.len() - i,
    {
        let c = s[i];
        proof {
            let pend = seq![p] + s@.skip(i as int);
            assert(pend.len() >= 2);
            assert(pend[0] == p);
            assert(pend[1] == c);
        }
        if is_ws_char(p) && is_ws_char(c) {
            proof {
                let pend = seq![p] + s@.skip(i as int);
                assert(collapse_ws(pend) == collapse_ws(seq![' '] + pend.skip(2)));
                assert(pend.skip(2) =~= s@.skip(i + 1));
            }
            p = ' ';
        } else {
            proof {
                let pend = seq![p] + s@.skip(i as int);
                assert(collapse_ws(pend) == seq![pend[0]] + collapse_ws(pend.drop_first()));
                assert(pend.drop_first() =~= seq![c] + s@.skip(i + 1));
                assert(out@ + (seq![p] + collapse_ws(seq![c] + s@.skip(i + 1)))
                    =~= out@.push(p) + collapse_ws(seq![c] + s@.skip(i + 1)));
            }
            out.push(p);
            p = c;
        }
        i += 1;
    }
    proof {
        let pend = seq![p] + s@.skip(s@.len() as int);
        assert(pend =~= seq![p]);
        assert(collapse_ws(seq![p]) == seq![p] + collapse_ws(seq![p].drop_first()));
        assert(seq![p].drop_first() =~= Seq::<char>::empty());
        assert(collapse_ws(Seq::<char>::empty()) =~= Seq::<char>::empty());
        assert(out@.push(p) =~= out@ + (seq![p] + Seq::<char>::empty()));
    }
    out.push(p);
    out
}

/// Contract `"( "` to `"("` throughout.
pub fn fix_parens(s: &Vec<char>) -> (r: Vec<char>)
    ensures
        r@ == fix_paren(s@),
{
    let mut out: Vec<char> = Vec::new();
    let mut i: usize = 0;
    proof {
        assert(s@.skip(0) =~= s@);
        assert(out@ + fix_paren(s@) =~= fix_paren(s@));
    }
    while i < s.len()
        invariant
            0 <= i <= s@.len(),
            fix_paren(s@) == out@ + fix_paren(s@.skip(i as int)),
        decreases s@.len() - i,
    {
        let rest_len = s.len() - i;
        if rest_len >= 2 && s[i] == '(' && s[i + 1] == ' ' {
            proof {
                let t = s@.skip(i as int);
                assert(t[0] == '(' && t[1] == ' ');
                assert(fix_paren(t) == seq!['('] + fix_paren(t.skip(2)));
                assert(t.skip(2) =~= s@.skip(i + 2));
                assert(out@ + (seq!['('] + fix_paren(s@.skip(i + 2)))
                    =~= out@.push('(') + fix_paren(s@.skip(i + 2)));
            }
            out.push('(');
            i += 2;
        } else {
            proof {
                let t = s@.skip(i as int);
                assert(t.len() >= 1 && t[0] == s@[i as int]);
                assert(!(t.len() >= 2 && t[0] == '(' && t[1] == ' '));
                assert(fix_paren(t) == seq![t[0]] + fix_paren(t.drop_first()));
                assert(t.drop_first() =~= s@.skip(i + 1));
                assert(out@ + (seq![s@[i as int]] + fix_paren(s@.skip(i + 1)))
                    =~= out@.push(s@[i as int]) + fix_paren(s@.skip(i + 1)));
            }
            out.push(s[i]);
            i += 1;
        }
    }
    proof {
        assert(s@.skip(s@.len() as int) =~= Seq::<char>::empty());
        assert(fix_paren(Seq::<char>::empty()).len() == 0);
        assert(out@ + fix_paren(Seq::<char>::empty()) =~= out@);
    }
    out
}

fn matches_at(s: &Vec<char>, i: usize, pat: &Vec<char>) -> (m: bool)
    requires
        i + pat@.len() <= s@.len(),
    ensures
        m == (s@.subrange(i as int, i as int + pat@.len() as int) == pat@),
{
    let n = s.len();
    let mut j: usize = 0;
    while j < pat.len()
        invariant
            0 <= j <= pat@.len(),
            i + pat@.len() <= s@.len(),
            n == s@.len(),
            forall|k: int| 0 <= k < j ==> s@[i + k] == pat@[k],
        decreases pat@.len() - j,
    {
        if s[i + j] != pat[j] {
            proof {
                assert(s@.subrange(i as int, i as int + pat@.len() as int)[j as int]
                    != pat@[j as int]);
            }
            return false;
        }
        j += 1;
    }
    proof {
        assert(s@.subrange(i as int, i as int + pat@.len() as int) =~= pat@);
    }
    true
}

/// Replace every non-overlapping occurrence of `pat` in `s` by `rep`,
/// scanning left to right.
pub fn replace_all(s: &Vec<char>, pat: &Vec<char>, rep: &Vec<char>) -> (r: Vec<char>)
    ensures
        r@ == replace_lit(s@, pat@, rep@),
{
    if pat.len() == 0 {
        let r = copy_range(s, 0, s.len());
        proof {
            assert(r@ =~= s@);
        }
        return r;
    }
    let mut out: Vec<char> = Vec::new();
    let mut i: usize = 0;
    proof {
        assert(s@.skip(0) =~= s@);
        assert(out@ + replace_lit(s@, pat@, rep@) =~= replace_lit(s@, pat@, rep@));
    }
    while i < s.len()
        invariant
            0 <= i <= s@.len(),
            pat@.len() >= 1,
            replace_lit(s@, pat@, rep@) == out@ + replace_lit(s@.skip(i as int), pat@, rep@),
        decreases s@.len() - i,
    {
        let rest_len = s.len() - i;
        if rest_len >= pat.len() && matches_at(s, i, pat) {
            out.extend_from_slice(rep.as_slice());
            proof {
                let t = s@.skip(i as int);
                assert(t.take(pat@.len() as int) =~= s@.subrange(
                    i as int,
                    i as int + pat@.len() as int,
                ));
                assert(replace_lit(t, pat@, rep@) == rep@ + replace_lit(
                    t.skip(pat@.len() as int),
                    pat@,
                    rep@,
                ));
                assert(t.skip(pat@.len() as int) =~= s@.skip(i + pat@.len()));
            }
            i += pat.len();
        } else {
            proof {
                let t = s@.skip(i as int);
                if t.len() < pat@.len() {
                    assert(replace_lit(t, pat@, rep@) == t);
                    assert(replace_lit(t.drop_first(), pat@, rep@) == t.drop_first());
                } else {
                    assert(t.take(pat@.len() as int) =~= s@.subrange(
                        i as int,
                        i as int + pat@.len() as int,
                    ));
                    assert(t.take(pat@.len() as int) != pat@);
                    assert(replace_lit(t, pat@, rep@) == seq![t[0]] + replace_lit(
                        t.drop_first(),
                        pat@,
                        rep@,
                    ));
                }
                assert(t.drop_first() =~= s@.skip(i + 1));
                assert(t =~= seq![t[0]] + t.drop_first());
                assert(out@ + (seq![s@[i as int]] + replace_lit(s@.skip(i + 1), pat@, rep@))
                    =~= out@.push(s@[i as int]) + replace_lit(s@.skip(i + 1), pat@, rep@));
            }
            out.push(s[i]);
            i += 1;
        }
    }
    proof {
        assert(s@.skip(s@.len() as int) =~= Seq::<char>::empty());
        assert(out@ + replace_lit(Seq::<char>::empty(), pat@, rep@) =~= out@);
    }
    out
}

} // verus!

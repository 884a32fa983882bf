//! Splitting input text into line units.
//!
//! A line unit is a maximal piece of the input that ends with `'\n'`, or the
//! trailing piece without one at the very end of the input. Concatenating
//! the units of a text gives the text back.

use vstd::prelude::*;

verus! {

/// The line units of `s`, in order. Every unit is non-empty, contains `'\n'`
/// at most as its final character, and all units but possibly the last end
/// with `'\n'`.
pub open spec fn lines_of(s: Seq<char>) -> Seq<Seq<char>>
    decreases s.len(),
{
    if s.len() == 0 {
        Seq::<Seq<char>>::empty()
    } else if s[0] == '\n' {
        seq![seq!['\n']] + lines_of(s.drop_first())
    } else {
        let rest = lines_of(s.drop_first());
        if rest.len() == 0 {
            seq![seq![s[0]]]
        } else {
            seq![seq![s[0]] + rest[0]] + rest.drop_first()
        }
    }
}

/// The concatenation of a sequence of texts.
pub open spec fn cat(ls: Seq<Seq<char>>) -> Seq<char>
    decreases ls.len(),
{
    if ls.len() == 0 {
        Seq::<char>::empty()
    } else {
        ls[0] + cat(ls.drop_first())
    }
}

/// A line unit as produced by `lines_of`: non-empty, with `'\n'` nowhere but
/// possibly at the end.
pub open spec fn proper_line(l: Seq<char>) -> bool {
    l.len() > 0 && (forall|j: int| 0 <= j < l.len() - 1 ==> l[j] != '\n')
}

/// The views of a sequence of character vectors.
pub open spec fn views(s: Seq<Vec<char>>) -> Seq<Seq<char>> {
    s.map_values(|v: Vec<char>| v@)
}

pub proof fn lemma_cat_push(ls: Seq<Seq<char>>, x: Seq<char>)
    ensures
        cat(ls.push(x)) == cat(ls) + x,
    decreases ls.len(),
{
    if ls.len() == 0 {
        assert(ls.push(x).drop_first() =~= Seq::<Seq<char>>::empty());
        assert(cat(Seq::<Seq<char>>::empty()) =~= Seq::<char>::empty());
        assert(cat(ls.push(x)) == ls.push(x)[0] + cat(ls.push(x).drop_first()));
        assert(cat(ls.push(x)) =~= cat(ls) + x);
    } else {
        lemma_cat_push(ls.drop_first(), x);
        assert(ls.push(x).drop_first() =~= ls.drop_first().push(x));
        assert(ls[0] + (cat(ls.drop_first()) + x) =~= (ls[0] + cat(ls.drop_first())) + x);
    }
}

/// Concatenation splits at any cut point of the unit sequence.
pub proof fn lemma_cat_split(ls: Seq<Seq<char>>, i: int)
    requires
        0 <= i <= ls.len(),
    ensures
        cat(ls) == cat(ls.take(i)) + cat(ls.skip(i)),
    decreases i,
{
    if i == 0 {
        assert(ls.take(0) =~= Seq::<Seq<char>>::empty());
        assert(ls.skip(0) =~= ls);
        assert(cat(ls) =~= cat(ls.take(0)) + cat(ls.skip(0)));
    } else {
        lemma_cat_split(ls.drop_first(), i - 1);
        assert(ls.take(i).drop_first() =~= ls.drop_first().take(i - 1));
        assert(ls.skip(i) =~= ls.drop_first().skip(i - 1));
        assert(ls[0] + (cat(ls.drop_first().take(i - 1)) + cat(ls.drop_first().skip(i - 1)))
            =~= (ls[0] + cat(ls.drop_first().take(i - 1))) + cat(ls.drop_first().skip(i - 1)));
        assert(cat(ls.take(i)) == ls.take(i)[0] + cat(ls.take(i).drop_first()));
    }
}

/// If `u` is one whole line (it ends with `'\n'`, or nothing follows it),
/// then splitting `u + rest` into lines yields `u` and then the lines of
/// `rest`.
pub proof fn lemma_lines_of_prepend_line(u: Seq<char>, rest: Seq<char>)
    requires
        proper_line(u),
        u.last() == '\n' || rest.len() == 0,
    ensures
        lines_of(u + rest) == seq![u] + lines_of(rest),
    decreases u.len(),
{
    let s = u + rest;
    assert(s.len() > 0);
    assert(s[0] == u[0]);
    if u.len() == 1 {
        if u[0] == '\n' {
            assert(s.drop_first() =~= rest);
            assert(seq!['\n'] =~= u);
            assert(lines_of(s) =~= seq![u] + lines_of(rest));
        } else {
            assert(rest.len() == 0);
            assert(s =~= u);
            assert(s.drop_first() =~= Seq::<char>::empty());
            assert(lines_of(s.drop_first()).len() == 0);
            assert(seq![s[0]] =~= u);
            assert(lines_of(s) =~= seq![u] + lines_of(rest));
        }
    } else {
        assert(u[0] != '\n');
        let u2 = u.drop_first();
        assert(proper_line(u2)) by {
            assert(forall|j: int| 0 <= j < u2.len() - 1 ==> u2[j] == u[j + 1] && u[j + 1] != '\n');
        }
        assert(u2.last() == u.last());
        lemma_lines_of_prepend_line(u2, rest);
        assert(s.drop_first() =~= u2 + rest);
        let inner = lines_of(u2 + rest);
        assert(inner == seq![u2] + lines_of(rest));
        assert(inner.len() > 0);
        assert(inner[0] == u2);
        assert(seq![s[0]] + inner[0] =~= u);
        assert(inner.drop_first() =~= lines_of(rest));
        assert(lines_of(s) =~= seq![u] + lines_of(rest));
    }
}

/// Joining the lines of a text gives the text back.
pub proof fn lemma_cat_lines_of(s: Seq<char>)
    ensures
        cat(lines_of(s)) == s,
    decreases s.len(),
{
    if s.len() == 0 {
        assert(cat(lines_of(s)) =~= s);
    } else {
        lemma_cat_lines_of(s.drop_first());
        if s[0] == '\n' {
            assert(lines_of(s).drop_first() =~= lines_of(s.drop_first()));
            assert(lines_of(s)[0] =~= seq![s[0]]);
            assert(cat(lines_of(s)) =~= s);
        } else {
            let rest = lines_of(s.drop_first());
            if rest.len() == 0 {
                assert(cat(rest) =~= Seq::<char>::empty());
                assert(s.drop_first().len() == 0);
                assert(lines_of(s) =~= seq![seq![s[0]]]);
                assert(lines_of(s).drop_first() =~= Seq::<Seq<char>>::empty());
                assert(cat(lines_of(s)) =~= seq![s[0]] + Seq::<char>::empty());
                assert(cat(lines_of(s)) =~= s);
            } else {
                assert(lines_of(s)[0] == seq![s[0]] + rest[0]);
                assert(lines_of(s).drop_first() =~= rest.drop_first());
                assert(cat(rest) == rest[0] + cat(rest.drop_first()));
                assert((seq![s[0]] + rest[0]) + cat(rest.drop_first())
                    =~= seq![s[0]] + (rest[0] + cat(rest.drop_first())));
                assert(cat(lines_of(s)) =~= s);
            }
        }
    }
}

/// Every unit that `lines_of` yields is a proper line; all but the last end
/// with `'\n'`.
pub proof fn lemma_lines_of_shape(s: Seq<char>)
    ensures
        forall|i: int| 0 <= i < lines_of(s).len() ==> proper_line(#[trigger] lines_of(s)[i]),
        forall|i: int|
            0 <= i < lines_of(s).len() - 1 ==> (#[trigger] lines_of(s)[i]).last() == '\n',
    decreases s.len(),
{
    if s.len() == 0 {
    } else {
        lemma_lines_of_shape(s.drop_first());
        let rest = lines_of(s.drop_first());
        if s[0] == '\n' {
            assert(proper_line(seq!['\n']));
            assert(forall|i: int|
                1 <= i < lines_of(s).len() ==> lines_of(s)[i] == rest[i - 1]);
            if rest.len() > 0 {
                // the appended head ends with a newline
                assert(lines_of(s)[0].last() == '\n');
            }
        } else {
            if rest.len() == 0 {
                assert(proper_line(seq![s[0]]));
            } else {
                let head = seq![s[0]] + rest[0];
                assert(proper_line(rest[0]));
                assert(proper_line(head)) by {
                    assert(forall|j: int|
                        1 <= j < head.len() - 1 ==> head[j] == rest[0][j - 1] && rest[0][j - 1]
                            != '\n');
                    assert(s[0] != '\n');
                }
                assert(head.last() == rest[0].last());
                assert(forall|i: int|
                    1 <= i < lines_of(s).len() ==> lines_of(s)[i] == rest[i]);
            }
        }
    }
}

/// Split `input` into its line units.
pub fn split_lines(input: &Vec<char>) -> (r: Vec<Vec<char>>)
    ensures
        views(r@) == lines_of(input@),
{
    let mut out: Vec<Vec<char>> = Vec::new();
    let mut cur: Vec<char> = Vec::new();
    let ghost mut start: int = 0;
    let mut i: usize = 0;
    proof {
        assert(input@.skip(0) =~= input@);
        assert(views(out@) =~= Seq::<Seq<char>>::empty());
        assert(views(out@) + lines_of(input@) =~= lines_of(input@));
    }
    while i < input.len()
        invariant
            0 <= start <= i <= input@.len(),
            cur@ == input@.subrange(start, i as int),
            forall|j: int| 0 <= j < cur@.len() ==> cur@[j] != '\n',
            lines_of(input@) == views(out@) + lines_of(input@.skip(start)),
        decreases input@.len() - i,
    {
        let c = input[i];
        cur.push(c);
        if c == '\n' {
            proof {
                let u = cur@;
                assert(proper_line(u));
                assert(u.last() == '\n');
                assert(u + input@.skip(i + 1) =~= input@.skip(start));
                lemma_lines_of_prepend_line(u, input@.skip(i + 1));
                assert(views(out@.push(cur)) =~= views(out@).push(cur@));
                assert(views(out@) + (seq![u] + lines_of(input@.skip(i + 1)))
                    =~= views(out@).push(u) + lines_of(input@.skip(i + 1)));
                start = i + 1;
            }
            out.push(cur);
            cur = Vec::new();
        }
        i += 1;
    }
    if cur.len() > 0 {
        proof {
            let u = cur@;
            assert(u =~= input@.skip(start));
            assert(proper_line(u));
            lemma_lines_of_prepend_line(u, Seq::<char>::empty());
            assert(u + Seq::<char>::empty() =~= u);
            assert(lines_of(Seq::<char>::empty()).len() == 0);
            assert(lines_of(u) =~= seq![u] + lines_of(Seq::<char>::empty()));
            assert(views(out@.push(cur)) =~= views(out@).push(cur@));
            assert(views(out@) + seq![u] =~= views(out@).push(u));
            assert(seq![u] + lines_of(Seq::<char>::empty()) =~= seq![u]);
        }
        out.push(cur);
    } else {
        proof {
            assert(input@.skip(start) =~= Seq::<char>::empty());
            assert(lines_of(input@) =~= views(out@));
        }
    }
    out
}

} // verus!

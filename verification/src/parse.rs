//! The diff parser: raw unified-diff text to a structured tree.
//!
//! The grammar is line-anchored. A file header is an optional
//! `diff --git a/<path> b/<path>` plus `index <hash>..<hash> <mode>` line
//! pair followed by a mandatory `--- <path>` line and `+++ <path>` line; a
//! hunk header is an `@@ ` line. Hunk content lines carry a tag in their
//! first column: space for context, `-` for removed, `+` for added, or `\`
//! for the "no newline at end of file" marker, which is an annotation
//! attached to the line before it. Input that does not fit this shape is
//! rejected with a `ParseError`; on accepted input, re-serializing the
//! parse result reproduces the input exactly.

use vstd::prelude::*;

use crate::lines::cat;
use crate::lines::lemma_cat_lines_of;
use crate::lines::lemma_cat_push;
use crate::lines::lemma_cat_split;
use crate::lines::lemma_lines_of_prepend_line;
use crate::lines::lemma_lines_of_shape;
use crate::lines::lines_of;
use crate::lines::proper_line;
use crate::lines::split_lines;
use crate::lines::views;
use crate::render::render_block;
use crate::render::render_blocks;
use crate::render::render_chunk;
use crate::render::render_chunks;
use crate::render::render_file;
use crate::render::render_files;
use crate::render::render_line;
use crate::render::render_tagged_lines;
use crate::text::chars_of;
use crate::text::copy_range;
use crate::tree::block_model;
use crate::tree::block_models;
use crate::tree::chunk_model;
use crate::tree::chunk_models;
use crate::tree::file_model;
use crate::tree::file_models;
use crate::tree::line_model;
use crate::tree::line_models;
use crate::tree::BlockModel;
use crate::tree::Changed;
use crate::tree::Chunk;
use crate::tree::ChunkBlock;
use crate::tree::DiffLine;
use crate::tree::ChunkModel;
use crate::tree::FileDiff;
use crate::tree::FileDiffModel;
use crate::tree::LineModel;
use crate::tree::ParseError;

verus! {

pub open spec fn no_newline_marker() -> Seq<char> {
    " No newline at end of file"@
}

/// A whole no-newline marker line, with or without its own final newline.
pub open spec fn is_annotation_line(l: Seq<char>) -> bool {
    l == seq!['\\'] + no_newline_marker() || l == seq!['\\'] + no_newline_marker() + seq!['\n']
}

pub open spec fn valid_tag(c: char) -> bool {
    c == ' ' || c == '-' || c == '+' || c == '\\'
}

/// The error, if any, that one hunk content line produces; `first` says
/// whether the line is the first of its hunk's content.
pub open spec fn line_step_err(l: Seq<char>, first: bool) -> Option<ParseError> {
    if l.len() == 0 || !valid_tag(l[0]) {
        Some(ParseError::BadLineTag)
    } else if l[0] == '\\' && !is_annotation_line(l) {
        Some(ParseError::BadAnnotation)
    } else if l[0] == '\\' && first {
        Some(ParseError::OrphanAnnotation)
    } else {
        None
    }
}

pub open spec fn valid_body_line(l: Seq<char>, first: bool) -> bool {
    line_step_err(l, first) is None
}

pub open spec fn is_old_path_line(l: Seq<char>) -> bool {
    l.len() >= 6 && l[0] == '-' && l[1] == '-' && l[2] == '-' && l[3] == ' ' && l.last() == '\n'
}

pub open spec fn is_new_path_line(l: Seq<char>) -> bool {
    l.len() >= 6 && l[0] == '+' && l[1] == '+' && l[2] == '+' && l[3] == ' ' && l.last() == '\n'
}

pub open spec fn is_hunk_header_line(l: Seq<char>) -> bool {
    l.len() >= 5 && l[0] == '@' && l[1] == '@' && l[2] == ' ' && l.last() == '\n'
}

pub open spec fn git_prefix() -> Seq<char> {
    "diff --git a/"@
}

/// A `diff --git a/<old> b/<new>` line: the prefix, a non-empty old path
/// that is followed somewhere by ` b/`, and a non-empty new path.
pub open spec fn is_git_line(l: Seq<char>) -> bool {
    l.len() >= 19 && l.take(13) == git_prefix() && l.last() == '\n' && (exists|j: int|
        14 <= j <= l.len() - 5 && #[trigger] l[j] == ' ' && l[j + 1] == 'b' && l[j + 2] == '/')
}

pub open spec fn is_hex_digit(c: char) -> bool {
    (48 <= c as u32 && c as u32 <= 57) || (97 <= c as u32 && c as u32 <= 102)
}

pub open spec fn is_dec_digit(c: char) -> bool {
    48 <= c as u32 && c as u32 <= 57
}

pub open spec fn hex_run_end(l: Seq<char>, i: int) -> int
    decreases l.len() - i when 0 <= i <= l.len()
{
    if i < l.len() && is_hex_digit(l[i]) {
        hex_run_end(l, i + 1)
    } else {
        i
    }
}

pub open spec fn dec_run_end(l: Seq<char>, i: int) -> int
    decreases l.len() - i when 0 <= i <= l.len()
{
    if i < l.len() && is_dec_digit(l[i]) {
        dec_run_end(l, i + 1)
    } else {
        i
    }
}

/// An `index <hash>..<hash> <mode>` line: `index `, a lowercase-hex run,
/// `..`, a second hex run, a space, and a decimal mode running to the final
/// newline.
pub open spec fn is_index_line(l: Seq<char>) -> bool {
    l.len() >= 13 && l[0] == 'i' && l[1] == 'n' && l[2] == 'd' && l[3] == 'e' && l[4] == 'x'
        && l[5] == ' ' && l.last() == '\n' && {
        let a = hex_run_end(l, 6);
        a > 6 && a + 2 < l.len() && l[a] == '.' && l[a + 1] == '.' && {
            let b = hex_run_end(l, a + 2);
            b > a + 2 && b + 1 < l.len() - 1 && l[b] == ' ' && dec_run_end(l, b + 1) == l.len()
                - 1
        }
    }
}

/// The number of lines of the file header starting at line `i`: 2 for the
/// plain `---`/`+++` form, 4 for the `diff --git` form, 0 when no file
/// header starts here.
pub open spec fn file_header_len_at(ls: Seq<Seq<char>>, i: int) -> int {
    if 0 <= i && i + 2 <= ls.len() && is_old_path_line(ls[i]) && is_new_path_line(ls[i + 1]) {
        2
    } else if 0 <= i && i + 4 <= ls.len() && is_git_line(ls[i]) && is_index_line(ls[i + 1])
        && is_old_path_line(ls[i + 2]) && is_new_path_line(ls[i + 3]) {
        4
    } else {
        0
    }
}

/// The diff grammar as a state machine over the line sequence, from line
/// `i` on. `in_file` says whether a file header has been seen; `in_hunk`
/// whether line `i` stands in hunk content; `at_body_start` whether line
/// `i` would be the first content line of its hunk.
pub open spec fn valid_from(
    ls: Seq<Seq<char>>,
    i: int,
    in_file: bool,
    in_hunk: bool,
    at_body_start: bool,
) -> bool
    decreases ls.len() - i when 0 <= i <= ls.len()
{
    if i >= ls.len() {
        true
    } else {
        let k = file_header_len_at(ls, i);
        if k != 0 {
            valid_from(ls, i + k, true, false, false)
        } else if in_file && is_hunk_header_line(ls[i]) {
            valid_from(ls, i + 1, true, true, true)
        } else if in_hunk {
            valid_body_line(ls[i], at_body_start) && valid_from(ls, i + 1, true, true, false)
        } else {
            false
        }
    }
}

pub open spec fn valid_diff_lines(ls: Seq<Seq<char>>) -> bool {
    valid_from(ls, 0, false, false, false)
}

/// A syntactically valid unified diff: what the parser accepts.
pub open spec fn valid_diff(s: Seq<char>) -> bool {
    valid_diff_lines(lines_of(s))
}

/// Every block the grouping builds holds at least one line.
pub open spec fn wf_block(b: BlockModel) -> bool {
    match b {
        BlockModel::Context { lines } => lines.len() > 0,
        BlockModel::Changed { removed, added } => removed.len() + added.len() > 0,
    }
}

pub open spec fn wf_blocks(bs: Seq<BlockModel>) -> bool {
    forall|i: int| 0 <= i < bs.len() ==> wf_block(#[trigger] bs[i])
}

/// Exactly the text of one file-header match: two or four whole header
/// lines.
pub open spec fn is_file_header_text(h: Seq<char>) -> bool {
    let hl = lines_of(h);
    (hl.len() == 2 && is_old_path_line(hl[0]) && is_new_path_line(hl[1])) || (hl.len() == 4
        && is_git_line(hl[0]) && is_index_line(hl[1]) && is_old_path_line(hl[2])
        && is_new_path_line(hl[3]))
}

pub open spec fn wf_chunk(c: ChunkModel) -> bool {
    is_hunk_header_line(c.header) && wf_blocks(c.blocks)
}

pub open spec fn wf_file(f: FileDiffModel) -> bool {
    is_file_header_text(f.header) && (forall|ci: int|
        0 <= ci < f.chunks.len() ==> wf_chunk(#[trigger] f.chunks[ci]))
}

/// The structural shape every parse result has: each file header is real
/// header text, each hunk header is a hunk-header line, and every block
/// holds at least one line.
pub open spec fn wf_tree(fs: Seq<FileDiffModel>) -> bool {
    forall|fi: int| 0 <= fi < fs.len() ==> wf_file(#[trigger] fs[fi])
}

proof fn lemma_hex_run_end_at(l: Seq<char>, i: int, e: int)
    requires
        0 <= i <= e <= l.len(),
        forall|k: int| i <= k < e ==> is_hex_digit(l[k]),
        e == l.len() || !is_hex_digit(l[e]),
    ensures
        hex_run_end(l, i) == e,
    decreases e - i,
{
    if i == e {
    } else {
        lemma_hex_run_end_at(l, i + 1, e);
    }
}

proof fn lemma_dec_run_end_at(l: Seq<char>, i: int, e: int)
    requires
        0 <= i <= e <= l.len(),
        forall|k: int| i <= k < e ==> is_dec_digit(l[k]),
        e == l.len() || !is_dec_digit(l[e]),
    ensures
        dec_run_end(l, i) == e,
    decreases e - i,
{
    if i == e {
    } else {
        lemma_dec_run_end_at(l, i + 1, e);
    }
}

fn check_old_path(l: &Vec<char>) -> (r: bool)
    ensures
        r == is_old_path_line(l@),
{
    l.len() >= 6 && l[0] == '-' && l[1] == '-' && l[2] == '-' && l[3] == ' ' && l[l.len() - 1]
        == '\n'
}

fn check_new_path(l: &Vec<char>) -> (r: bool)
    ensures
        r == is_new_path_line(l@),
{
    l.len() >= 6 && l[0] == '+' && l[1] == '+' && l[2] == '+' && l[3] == ' ' && l[l.len() - 1]
        == '\n'
}

fn check_hunk_header(l: &Vec<char>) -> (r: bool)
    ensures
        r == is_hunk_header_line(l@),
{
    l.len() >= 5 && l[0] == '@' && l[1] == '@' && l[2] == ' ' && l[l.len() - 1] == '\n'
}

fn check_hex(c: char) -> (r: bool)
    ensures
        r == is_hex_digit(c),
{
    let u = c as u32;
    (48 <= u && u <= 57) || (97 <= u && u <= 102)
}

fn check_dec(c: char) -> (r: bool)
    ensures
        r == is_dec_digit(c),
{
    let u = c as u32;
    48 <= u && u <= 57
}

fn check_git_line(l: &Vec<char>) -> (r: bool)
    ensures
        r == is_git_line(l@),
{
    let n = l.len();
    if n < 19 || l[n - 1] != '\n' {
        return false;
    }
    let pref = chars_of("diff --git a/");
    proof {
        reveal_strlit("diff --git a/");
        assert(pref@.len() == 13);
    }
    let mut t: usize = 0;
    while t < 13
        invariant
            0 <= t <= 13,
            n == l@.len(),
            n >= 19,
            pref@.len() == 13,
            pref@ == git_prefix(),
            forall|k: int| 0 <= k < t ==> l@[k] == git_prefix()[k],
        decreases 13 - t,
    {
        if l[t] != pref[t] {
            proof {
                if is_git_line(l@) {
                    assert(l@.take(13)[t as int] == l@[t as int]);
                    assert(false);
                }
            }
            return false;
        }
        t += 1;
    }
    proof {
        assert(l@.take(13) =~= git_prefix());
    }
    let mut j: usize = 14;
    while j <= n - 5
        invariant
            14 <= j <= n - 4,
            n == l@.len(),
            n >= 19,
            l@.take(13) == git_prefix(),
            l@.last() == '\n',
            forall|k: int| 14 <= k < j ==> !(#[trigger] l@[k] == ' ' && l@[k + 1] == 'b' && l@[k + 2] == '/'),
        decreases n - j,
    {
        if l[j] == ' ' && l[j + 1] == 'b' && l[j + 2] == '/' {
            proof {
                assert(is_git_line(l@)) by {
                    assert(14 <= j as int <= l@.len() - 5 && l@[j as int] == ' ' && l@[j as int
                        + 1] == 'b' && l@[j as int + 2] == '/');
                }
            }
            return true;
        }
        j += 1;
    }
    proof {
        assert(forall|k: int|
            14 <= k <= l@.len() - 5 ==> !(#[trigger] l@[k] == ' ' && l@[k + 1] == 'b' && l@[k + 2] == '/'));
    }
    false
}

fn check_index_line(l: &Vec<char>) -> (r: bool)
    ensures
        r == is_index_line(l@),
{
    let n = l.len();
    if n < 13 || l[n - 1] != '\n' {
        return false;
    }
    let ok_prefix = l[0] == 'i' && l[1] == 'n' && l[2] == 'd' && l[3] == 'e' && l[4] == 'x'
        && l[5] == ' ';
    if !ok_prefix {
        return false;
    }
    let mut a: usize = 6;
    while a < n && check_hex(l[a])
        invariant
            6 <= a <= n,
            n == l@.len(),
            forall|k: int| 6 <= k < a ==> is_hex_digit(l@[k]),
        decreases n - a,
    {
        a += 1;
    }
    proof {
        lemma_hex_run_end_at(l@, 6, a as int);
    }
    if a <= 6 || a >= n - 2 || l[a] != '.' || l[a + 1] != '.' {
        return false;
    }
    let mut b: usize = a + 2;
    while b < n && check_hex(l[b])
        invariant
            a + 2 <= b <= n,
            n == l@.len(),
            forall|k: int| a + 2 <= k < b ==> is_hex_digit(l@[k]),
        decreases n - b,
    {
        b += 1;
    }
    proof {
        lemma_hex_run_end_at(l@, a as int + 2, b as int);
    }
    if b <= a + 2 || b >= n - 2 || l[b] != ' ' {
        return false;
    }
    let mut d: usize = b + 1;
    while d < n && check_dec(l[d])
        invariant
            b + 1 <= d <= n,
            n == l@.len(),
            forall|k: int| b + 1 <= k < d ==> is_dec_digit(l@[k]),
        decreases n - d,
    {
        d += 1;
    }
    proof {
        lemma_dec_run_end_at(l@, b as int + 1, d as int);
    }
    d == n - 1
}

fn file_header_len(lines: &Vec<Vec<char>>, i: usize) -> (k: usize)
    requires
        i < lines@.len(),
    ensures
        k as int == file_header_len_at(views(lines@), i as int),
{
    let n = lines.len();
    proof {
        assert(forall|j: int| 0 <= j < lines@.len() ==> views(lines@)[j] == lines@[j]@);
    }
    if check_old_path(&lines[i]) {
        if n - i > 1 && check_new_path(&lines[i + 1]) {
            return 2;
        }
        proof {
            reveal_strlit("diff --git a/");
            if is_git_line(lines@[i as int]@) {
                assert(lines@[i as int]@.take(13)[0] == lines@[i as int]@[0]);
                assert(false);
            }
        }
        return 0;
    }
    if check_git_line(&lines[i]) {
        if n - i > 3 && check_index_line(&lines[i + 1]) && check_old_path(&lines[i + 2])
            && check_new_path(&lines[i + 3]) {
            return 4;
        }
        proof {
            reveal_strlit("diff --git a/");
            assert(lines@[i as int]@.take(13)[0] == lines@[i as int]@[0]);
        }
        return 0;
    }
    0
}

fn check_annotation(u: &Vec<char>) -> (ok: bool)
    requires
        u@.len() >= 1,
        u@[0] == '\\',
    ensures
        ok == is_annotation_line(u@),
{
    let marker = chars_of(" No newline at end of file");
    proof {
        reveal_strlit(" No newline at end of file");
        assert(no_newline_marker().len() == 26);
    }
    let n = u.len();
    if n != 27 && n != 28 {
        proof {
            assert((seq!['\\'] + no_newline_marker()).len() == 27);
            assert((seq!['\\'] + no_newline_marker() + seq!['\n']).len() == 28);
        }
        return false;
    }
    if n == 28 && u[27] != '\n' {
        proof {
            assert((seq!['\\'] + no_newline_marker() + seq!['\n'])[27] == '\n');
            assert((seq!['\\'] + no_newline_marker()).len() == 27);
        }
        return false;
    }
    let mut j: usize = 0;
    while j < 26
        invariant
            0 <= j <= 26,
            marker@ == no_newline_marker(),
            n == u@.len(),
            n == 27 || n == 28,
            forall|k: int| 0 <= k < j ==> u@[k + 1] == no_newline_marker()[k],
        decreases 26 - j,
    {
        proof {
            reveal_strlit(" No newline at end of file");
        }
        if u[j + 1] != marker[j] {
            proof {
                assert((seq!['\\'] + no_newline_marker())[j + 1] == no_newline_marker()[j as int]);
                assert((seq!['\\'] + no_newline_marker() + seq!['\n'])[j + 1]
                    == no_newline_marker()[j as int]);
            }
            return false;
        }
        j += 1;
    }
    proof {
        if n == 27 {
            assert(u@ =~= seq!['\\'] + no_newline_marker());
        } else {
            assert(u@[27] == '\n');
            assert(u@ =~= seq!['\\'] + no_newline_marker() + seq!['\n']);
        }
    }
    true
}

/// Split one line unit into a `DiffLine`: the tag character is dropped,
/// the text before the line break becomes the body, and the line break (if
/// any) becomes the tail.
fn make_line(u: &Vec<char>) -> (dl: DiffLine)
    requires
        u@.len() >= 1,
    ensures
        dl.body@ + dl.tail@ == u@.drop_first(),
{
    let n = u.len();
    let body_end = if n >= 2 && u[n - 1] == '\n' {
        n - 1
    } else {
        n
    };
    let body = copy_range(u, 1, body_end);
    let tail = copy_range(u, body_end, n);
    let dl = DiffLine { body, tail };
    proof {
        assert(dl.body@ + dl.tail@ =~= u@.drop_first());
    }
    dl
}

fn concat_lines(lines: &Vec<Vec<char>>, from: usize, to: usize) -> (r: Vec<char>)
    requires
        from <= to <= lines@.len(),
    ensures
        r@ == cat(views(lines@).subrange(from as int, to as int)),
{
    let mut r: Vec<char> = Vec::new();
    let mut j = from;
    proof {
        assert(views(lines@).subrange(from as int, from as int) =~= Seq::<Seq<char>>::empty());
    }
    while j < to
        invariant
            from <= j <= to <= lines@.len(),
            r@ == cat(views(lines@).subrange(from as int, j as int)),
        decreases to - j,
    {
        r.extend_from_slice(lines[j].as_slice());
        proof {
            let vs = views(lines@);
            assert(vs[j as int] == lines@[j as int]@);
            assert(vs.subrange(from as int, j + 1) =~= vs.subrange(from as int, j as int).push(
                vs[j as int],
            ));
            lemma_cat_push(vs.subrange(from as int, j as int), vs[j as int]);
        }
        j += 1;
    }
    r
}


proof fn lemma_rtl_empty(tag: char)
    ensures
        render_tagged_lines(tag, Seq::<LineModel>::empty()) == Seq::<char>::empty(),
{
}

/// Append `u` verbatim to the tail of the last line of `ls`.
fn attach_last(ls: &mut Vec<DiffLine>, u: &Vec<char>)
    requires
        old(ls)@.len() > 0,
    ensures
        final(ls)@.len() == old(ls)@.len(),
        forall|tag: char|
            render_tagged_lines(tag, line_models(final(ls)@)) == render_tagged_lines(
                tag,
                line_models(old(ls)@),
            ) + u@,
{
    let ghost lm = line_models(ls@);
    match ls.pop() {
        Some(mut last) => {
            let ghost oldline = line_model(last);
            last.tail.extend_from_slice(u.as_slice());
            let ghost newline = line_model(last);
            ls.push(last);
            proof {
                assert(line_models(old(ls)@.drop_last()) =~= lm.drop_last());
                crate::tree::lemma_line_models_push(old(ls)@.drop_last(), last);
                assert(line_models(ls@) =~= lm.drop_last().push(newline));
                assert forall|tag: char|
                    render_tagged_lines(tag, line_models(ls@)) == render_tagged_lines(
                        tag,
                        lm,
                    ) + u@ by {
                    crate::render::lemma_render_tagged_lines_push(tag, lm.drop_last(), newline);
                    crate::render::lemma_render_tagged_lines_push(tag, lm.drop_last(), oldline);
                    assert(lm.drop_last().push(oldline) =~= lm);
                    assert(render_line(tag, newline) =~= render_line(tag, oldline) + u@);
                    assert(render_tagged_lines(tag, lm.drop_last()) + (render_line(tag, oldline)
                        + u@) =~= (render_tagged_lines(tag, lm.drop_last()) + render_line(
                        tag,
                        oldline,
                    )) + u@);
                }
            }
        },
        None => {
            proof {
                assert(false);
            }
        },
    }
}

/// Add one hunk content line to the block grouping. A context line joins a
/// running context block, a removed line joins a changed block that has no
/// added lines yet, an added line joins a running changed block, and a
/// marker line attaches to the most recent line; any other grouping starts
/// a new block.
fn push_hunk_line(blocks: &mut Vec<ChunkBlock>, u: &Vec<char>) -> (r: Result<(), ParseError>)
    requires
        u@.len() >= 1,
        wf_blocks(block_models(old(blocks)@)),
    ensures
        match line_step_err(u@, old(blocks)@.len() == 0) {
            Some(e) => r == Err::<(), ParseError>(e) && final(blocks)@ == old(blocks)@,
            None => r is Ok && wf_blocks(block_models(final(blocks)@)) && final(blocks)@.len()
                > 0 && render_blocks(block_models(final(blocks)@)) == render_blocks(
                block_models(old(blocks)@),
            ) + u@,
        },
{
    let tag = u[0];
    let first = blocks.len() == 0;
    if tag != ' ' && tag != '-' && tag != '+' && tag != '\\' {
        return Err(ParseError::BadLineTag);
    }
    if tag == '\\' {
        if !check_annotation(u) {
            return Err(ParseError::BadAnnotation);
        }
        if first {
            return Err(ParseError::OrphanAnnotation);
        }
        let ghost oldm = block_models(blocks@);
        proof {
            assert(oldm.len() > 0);
            assert(wf_block(oldm.last()));
            assert(oldm.drop_last().push(oldm.last()) =~= oldm);
            crate::render::lemma_render_blocks_push(oldm.drop_last(), oldm.last());
        }
        let nb: ChunkBlock = match blocks.pop() {
            Some(ChunkBlock::Context(mut ls2)) => {
                let ghost lm = line_models(ls2@);
                attach_last(&mut ls2, u);
                proof {
                    assert(render_tagged_lines(' ', line_models(ls2@)) == render_tagged_lines(
                        ' ',
                        lm,
                    ) + u@);
                }
                ChunkBlock::Context(ls2)
            },
            Some(ChunkBlock::Changed(mut c)) => {
                if c.added.len() > 0 {
                    let ghost lm = line_models(c.added@);
                    let ghost rm = line_models(c.removed@);
                    attach_last(&mut c.added, u);
                    proof {
                        assert(render_tagged_lines('-', rm) + (render_tagged_lines('+', lm)
                            + u@) =~= (render_tagged_lines('-', rm) + render_tagged_lines(
                            '+',
                            lm,
                        )) + u@);
                    }
                    ChunkBlock::Changed(c)
                } else {
                    let ghost lm = line_models(c.removed@);
                    let ghost am = line_models(c.added@);
                    attach_last(&mut c.removed, u);
                    proof {
                        lemma_rtl_empty('+');
                        assert(am =~= Seq::<LineModel>::empty());
                        assert((render_tagged_lines('-', lm) + u@) + render_tagged_lines('+', am)
                            =~= (render_tagged_lines('-', lm) + render_tagged_lines('+', am))
                            + u@);
                    }
                    ChunkBlock::Changed(c)
                }
            },
            None => {
                proof {
                    assert(false);
                }
                ChunkBlock::Context(Vec::new())
            },
        };
        proof {
            assert(block_models(blocks@) =~= oldm.drop_last());
            assert(render_block(block_model(nb)) == render_block(oldm.last()) + u@);
            crate::tree::lemma_block_models_push(blocks@, nb);
            crate::render::lemma_render_blocks_push(oldm.drop_last(), block_model(nb));
            assert((render_blocks(oldm.drop_last()) + render_block(oldm.last())) + u@
                =~= render_blocks(oldm.drop_last()) + (render_block(oldm.last()) + u@));
            assert(wf_blocks(block_models(blocks@).push(block_model(nb)))) by {
                assert(forall|i: int|
                    0 <= i < oldm.drop_last().len() ==> #[trigger] oldm.drop_last()[i]
                        == oldm[i]);
                assert(wf_block(block_model(nb)));
            }
        }
        blocks.push(nb);
        return Ok(());
    }
    // tag is ' ', '-' or '+': the line becomes block content
    let dl = make_line(u);
    proof {
        assert(seq![tag] + (dl.body@ + dl.tail@) =~= u@);
        assert(render_line(tag, line_model(dl)) =~= u@);
    }
    let merge = if blocks.len() > 0 {
        match &blocks[blocks.len() - 1] {
            ChunkBlock::Context(_) => tag == ' ',
            ChunkBlock::Changed(c) => (tag == '-' && c.added.len() == 0) || tag == '+',
        }
    } else {
        false
    };
    let ghost oldm = block_models(blocks@);
    if merge {
        proof {
            assert(oldm.len() > 0);
            assert(oldm.drop_last().push(oldm.last()) =~= oldm);
            crate::render::lemma_render_blocks_push(oldm.drop_last(), oldm.last());
        }
        let nb: ChunkBlock = match blocks.pop() {
            Some(ChunkBlock::Context(mut ls2)) => {
                proof {
                    crate::tree::lemma_line_models_push(ls2@, dl);
                    crate::render::lemma_render_tagged_lines_push(
                        ' ',
                        line_models(ls2@),
                        line_model(dl),
                    );
                }
                ls2.push(dl);
                ChunkBlock::Context(ls2)
            },
            Some(ChunkBlock::Changed(mut c)) => {
                if tag == '-' {
                    proof {
                        crate::tree::lemma_line_models_push(c.removed@, dl);
                        crate::render::lemma_render_tagged_lines_push(
                            '-',
                            line_models(c.removed@),
                            line_model(dl),
                        );
                        lemma_rtl_empty('+');
                        assert(line_models(c.added@) =~= Seq::<LineModel>::empty());
                        assert((render_tagged_lines('-', line_models(c.removed@)) + u@)
                            + render_tagged_lines('+', line_models(c.added@))
                            =~= (render_tagged_lines('-', line_models(c.removed@))
                            + render_tagged_lines('+', line_models(c.added@))) + u@);
                    }
                    c.removed.push(dl);
                    ChunkBlock::Changed(c)
                } else {
                    proof {
                        crate::tree::lemma_line_models_push(c.added@, dl);
                        crate::render::lemma_render_tagged_lines_push(
                            '+',
                            line_models(c.added@),
                            line_model(dl),
                        );
                        assert(render_tagged_lines('-', line_models(c.removed@))
                            + (render_tagged_lines('+', line_models(c.added@)) + u@)
                            =~= (render_tagged_lines('-', line_models(c.removed@))
                            + render_tagged_lines('+', line_models(c.added@))) + u@);
                    }
                    c.added.push(dl);
                    ChunkBlock::Changed(c)
                }
            },
            None => {
                proof {
                    assert(false);
                }
                ChunkBlock::Context(Vec::new())
            },
        };
        proof {
            assert(block_models(blocks@) =~= oldm.drop_last());
            assert(render_block(block_model(nb)) == render_block(oldm.last()) + u@);
            crate::tree::lemma_block_models_push(blocks@, nb);
            crate::render::lemma_render_blocks_push(oldm.drop_last(), block_model(nb));
            assert((render_blocks(oldm.drop_last()) + render_block(oldm.last())) + u@
                =~= render_blocks(oldm.drop_last()) + (render_block(oldm.last()) + u@));
            assert(wf_blocks(block_models(blocks@).push(block_model(nb)))) by {
                assert(forall|i: int|
                    0 <= i < oldm.drop_last().len() ==> #[trigger] oldm.drop_last()[i]
                        == oldm[i]);
                assert(wf_block(block_model(nb)));
            }
        }
        blocks.push(nb);
    } else {
        let nb: ChunkBlock = if tag == ' ' {
            let mut ls2: Vec<DiffLine> = Vec::new();
            ls2.push(dl);
            ChunkBlock::Context(ls2)
        } else if tag == '-' {
            let mut rem: Vec<DiffLine> = Vec::new();
            rem.push(dl);
            ChunkBlock::Changed(Changed { removed: rem, added: Vec::new() })
        } else {
            let mut add: Vec<DiffLine> = Vec::new();
            add.push(dl);
            ChunkBlock::Changed(Changed { removed: Vec::new(), added: add })
        };
        proof {
            assert(render_block(block_model(nb)) =~= u@) by {
                lemma_rtl_empty(' ');
                lemma_rtl_empty('-');
                lemma_rtl_empty('+');
                match nb {
                    ChunkBlock::Context(v) => {
                        assert(line_models(v@) =~= seq![line_model(dl)]);
                        assert(line_models(v@).drop_first() =~= Seq::<LineModel>::empty());
                        assert(render_tagged_lines(' ', line_models(v@)) == render_line(
                            ' ',
                            line_model(dl),
                        ) + render_tagged_lines(' ', line_models(v@).drop_first()));
                        assert(u@ + Seq::<char>::empty() =~= u@);
                    },
                    ChunkBlock::Changed(c) => {
                        if tag == '-' {
                            assert(line_models(c.removed@) =~= seq![line_model(dl)]);
                            assert(line_models(c.removed@).drop_first()
                                =~= Seq::<LineModel>::empty());
                            assert(render_tagged_lines('-', line_models(c.removed@))
                                == render_line('-', line_model(dl)) + render_tagged_lines(
                                '-',
                                line_models(c.removed@).drop_first(),
                            ));
                            assert(line_models(c.added@) =~= Seq::<LineModel>::empty());
                            assert(u@ + Seq::<char>::empty() =~= u@);
                            assert((u@ + Seq::<char>::empty()) + Seq::<char>::empty() =~= u@);
                        } else {
                            assert(line_models(c.added@) =~= seq![line_model(dl)]);
                            assert(line_models(c.added@).drop_first()
                                =~= Seq::<LineModel>::empty());
                            assert(render_tagged_lines('+', line_models(c.added@))
                                == render_line('+', line_model(dl)) + render_tagged_lines(
                                '+',
                                line_models(c.added@).drop_first(),
                            ));
                            assert(line_models(c.removed@) =~= Seq::<LineModel>::empty());
                            assert(u@ + Seq::<char>::empty() =~= u@);
                            assert(Seq::<char>::empty() + (u@ + Seq::<char>::empty()) =~= u@);
                        }
                    },
                }
            }
            crate::tree::lemma_block_models_push(blocks@, nb);
            crate::render::lemma_render_blocks_push(oldm, block_model(nb));
            assert(wf_blocks(oldm.push(block_model(nb)))) by {
                assert(wf_block(block_model(nb)));
            }
        }
        blocks.push(nb);
    }
    Ok(())
}

proof fn lemma_file_header_text(ls: Seq<Seq<char>>, fh_start: int, k: int)
    requires
        0 <= fh_start,
        fh_start + k <= ls.len(),
        file_header_len_at(ls, fh_start) == k,
        k == 2 || k == 4,
        forall|j: int| 0 <= j < ls.len() ==> proper_line(#[trigger] ls[j]),
    ensures
        is_file_header_text(cat(ls.subrange(fh_start, fh_start + k))),
{
    let seg2 = ls.subrange(fh_start, fh_start + k);
    let h = cat(seg2);
    if k == 2 {
        assert(seg2.drop_first() =~= seq![ls[fh_start + 1]]);
        assert(seq![ls[fh_start + 1]].drop_first() =~= Seq::<Seq<char>>::empty());
        assert(cat(Seq::<Seq<char>>::empty()) =~= Seq::<char>::empty());
        assert(cat(seq![ls[fh_start + 1]]) == seq![ls[fh_start + 1]][0] + cat(
            seq![ls[fh_start + 1]].drop_first(),
        ));
        assert(cat(seg2) == seg2[0] + cat(seg2.drop_first()));
        assert(cat(seg2) == ls[fh_start] + (ls[fh_start + 1] + Seq::<char>::empty()));
        assert(ls[fh_start + 1] + Seq::<char>::empty() =~= ls[fh_start + 1]);
        lemma_lines_of_prepend_line(ls[fh_start + 1], Seq::<char>::empty());
        lemma_lines_of_prepend_line(ls[fh_start], ls[fh_start + 1]);
        assert(h =~= ls[fh_start] + ls[fh_start + 1]);
        assert(lines_of(h) =~= seq![ls[fh_start], ls[fh_start + 1]]);
    } else {
        let t3 = ls[fh_start + 3];
        let r3 = seq![t3];
        let r2 = ls.subrange(fh_start + 2, fh_start + 4);
        let r1 = ls.subrange(fh_start + 1, fh_start + 4);
        assert(cat(Seq::<Seq<char>>::empty()) =~= Seq::<char>::empty());
        assert(r3.drop_first() =~= Seq::<Seq<char>>::empty());
        assert(cat(r3) == r3[0] + cat(r3.drop_first()));
        assert(r2.drop_first() =~= r3);
        assert(cat(r2) == r2[0] + cat(r2.drop_first()));
        assert(r1.drop_first() =~= r2);
        assert(cat(r1) == r1[0] + cat(r1.drop_first()));
        assert(seg2.drop_first() =~= r1);
        assert(cat(seg2) == seg2[0] + cat(seg2.drop_first()));
        assert(cat(seg2) == ls[fh_start] + (ls[fh_start + 1] + (ls[fh_start + 2] + (t3
            + Seq::<char>::empty()))));
        assert(t3 + Seq::<char>::empty() =~= t3);
        lemma_lines_of_prepend_line(t3, Seq::<char>::empty());
        lemma_lines_of_prepend_line(ls[fh_start + 2], t3);
        assert(ls[fh_start + 2] + t3 =~= ls[fh_start + 2] + (t3 + Seq::<char>::empty()));
        lemma_lines_of_prepend_line(ls[fh_start + 1], ls[fh_start + 2] + t3);
        assert(ls[fh_start + 1] + (ls[fh_start + 2] + t3) =~= ls[fh_start + 1] + (ls[fh_start
            + 2] + (t3 + Seq::<char>::empty())));
        lemma_lines_of_prepend_line(ls[fh_start], ls[fh_start + 1] + (ls[fh_start + 2] + t3));
        assert(h =~= ls[fh_start] + (ls[fh_start + 1] + (ls[fh_start + 2] + t3)));
        assert(lines_of(h) =~= seq![ls[fh_start], ls[fh_start + 1], ls[fh_start + 2], ls[
            fh_start + 3]]);
    }
}

/// Parse unified-diff text into its tree of file diffs.
///
/// On success the tree is well shaped (`wf_tree`) and reproduces the input
/// exactly when re-serialized, and the parser succeeds exactly on the
/// syntactically valid diffs.
pub fn parse_file_diffs(input: &Vec<char>) -> (r: Result<Vec<FileDiff>, ParseError>)
    ensures
        r matches Ok(files) ==> render_files(file_models(files@)) == input@,
        r matches Ok(files) ==> wf_tree(file_models(files@)),
        r is Ok <==> valid_diff(input@),
        r == Err::<Vec<FileDiff>, ParseError>(ParseError::MissingFileHeader)
            ==> lines_of(input@).len() > 0 && file_header_len_at(lines_of(input@), 0) == 0,
{
    let lines = split_lines(input);
    let ghost ls = views(lines@);
    proof {
        lemma_cat_lines_of(input@);
        lemma_lines_of_shape(input@);
        assert(forall|j: int| 0 <= j < lines@.len() ==> views(lines@)[j] == lines@[j]@);
        assert(forall|j: int| 0 <= j < ls.len() ==> (#[trigger] ls[j]).len() > 0) by {
            assert(forall|j: int|
                0 <= j < ls.len() ==> proper_line(#[trigger] lines_of(input@)[j]));
        }
    }
    let n = lines.len();
    if n == 0 {
        let files: Vec<FileDiff> = Vec::new();
        proof {
            assert(file_models(files@) =~= Seq::<FileDiffModel>::empty());
            assert(input@ =~= Seq::<char>::empty());
            assert(render_files(file_models(files@)) =~= input@);
        }
        return Ok(files);
    }
    let mut files: Vec<FileDiff> = Vec::new();
    let mut i: usize = 0;
    proof {
        assert(ls.take(0) =~= Seq::<Seq<char>>::empty());
        assert(file_models(files@) =~= Seq::<FileDiffModel>::empty());
        assert(render_files(file_models(files@)) =~= cat(ls.take(0)));
    }
    while i < n
        invariant
            0 <= i <= n,
            n == lines@.len(),
            ls == views(lines@),
            ls == lines_of(input@),
            cat(ls) == input@,
            forall|j: int| 0 <= j < ls.len() ==> (#[trigger] ls[j]).len() > 0,
            forall|j: int| 0 <= j < ls.len() ==> proper_line(#[trigger] ls[j]),
            forall|j: int| 0 <= j < ls.len() - 1 ==> (#[trigger] ls[j]).last() == '\n',
            wf_tree(file_models(files@)),
            render_files(file_models(files@)) == cat(ls.take(i as int)),
            valid_diff_lines(ls) == valid_from(ls, i as int, files@.len() > 0, false, false),
            i < n && files@.len() > 0 ==> !is_hunk_header_line(ls[i as int]),
            i < n && files@.len() > 0 ==> file_header_len_at(ls, i as int) != 0,
            files@.len() == 0 ==> i == 0,
        decreases n - i,
    {
        let k = file_header_len(&lines, i);
        if k == 0 {
            proof {
                assert(!valid_from(ls, i as int, files@.len() > 0, false, false));
            }
            return Err(ParseError::MissingFileHeader);
        }
        let ghost fh_start = i as int;
        proof {
            assert(fh_start + k as int <= n as int);
            assert(valid_from(ls, fh_start, files@.len() > 0, false, false) == valid_from(
                ls,
                fh_start + k as int,
                true,
                false,
                false,
            ));
        }
        let header = concat_lines(&lines, i, i + k);
        i = i + k;
        let ghost body_start = i as int;
        let mut chunks: Vec<Chunk> = Vec::new();
        proof {
            assert(ls.subrange(body_start, body_start) =~= Seq::<Seq<char>>::empty());
            assert(chunk_models(chunks@) =~= Seq::<ChunkModel>::empty());
            assert(render_chunks(chunk_models(chunks@)) =~= cat(
                ls.subrange(body_start, body_start),
            ));
        }
        while i < n && check_hunk_header(&lines[i])
            invariant
                0 <= body_start <= i as int <= n,
                n == lines@.len(),
                ls == views(lines@),
                ls == lines_of(input@),
                forall|j: int| 0 <= j < ls.len() ==> (#[trigger] ls[j]).len() > 0,
                render_chunks(chunk_models(chunks@)) == cat(
                    ls.subrange(body_start, i as int),
                ),
                forall|ci: int|
                    0 <= ci < chunks@.len() ==> wf_chunk(#[trigger] chunk_models(chunks@)[ci]),
                valid_diff_lines(ls) == valid_from(ls, i as int, true, false, false),
            decreases n - i,
        {
            let hh = copy_range(&lines[i], 0, lines[i].len());
            let ghost hh_pos = i as int;
            proof {
                assert(lines@[hh_pos]@ == ls[hh_pos]);
                assert(hh@ =~= ls[hh_pos]);
                reveal_strlit("diff --git a/");
                assert(file_header_len_at(ls, hh_pos) == 0) by {
                    if is_git_line(ls[hh_pos]) {
                        assert(ls[hh_pos].take(13)[0] == ls[hh_pos][0]);
                        assert(false);
                    }
                }
                assert(valid_from(ls, hh_pos, true, false, false) == valid_from(
                    ls,
                    hh_pos + 1,
                    true,
                    true,
                    true,
                ));
            }
            i += 1;
            let ghost b0 = i as int;
            let mut blocks: Vec<ChunkBlock> = Vec::new();
            proof {
                assert(block_models(blocks@) =~= Seq::<BlockModel>::empty());
                assert(ls.subrange(b0, b0) =~= Seq::<Seq<char>>::empty());
                assert(render_blocks(block_models(blocks@)) =~= cat(ls.subrange(b0, b0)));
            }
            while i < n && file_header_len(&lines, i) == 0 && !check_hunk_header(&lines[i])
                invariant
                    0 <= body_start <= hh_pos,
                    hh_pos + 1 == b0,
                    b0 <= i as int <= n,
                    n == lines@.len(),
                    ls == views(lines@),
                    ls == lines_of(input@),
                    forall|j: int| 0 <= j < ls.len() ==> (#[trigger] ls[j]).len() > 0,
                    render_blocks(block_models(blocks@)) == cat(ls.subrange(b0, i as int)),
                    wf_blocks(block_models(blocks@)),
                    valid_diff_lines(ls) == valid_from(
                        ls,
                        i as int,
                        true,
                        true,
                        blocks@.len() == 0,
                    ),
                decreases n - i,
            {
                let ghost before = blocks@;
                proof {
                    assert(lines@[i as int]@ == ls[i as int]);
                }
                let res = push_hunk_line(&mut blocks, &lines[i]);
                match res {
                    Ok(()) => {},
                    Err(e) => {
                        proof {
                            assert(!valid_body_line(ls[i as int], before.len() == 0));
                            assert(!valid_from(ls, i as int, true, true, before.len() == 0));
                        }
                        return Err(e);
                    },
                }
                proof {
                    assert(ls.subrange(b0, i as int + 1) =~= ls.subrange(b0, i as int).push(
                        ls[i as int],
                    ));
                    lemma_cat_push(ls.subrange(b0, i as int), ls[i as int]);
                    assert(valid_body_line(ls[i as int], before.len() == 0));
                    assert(valid_from(ls, i as int, true, true, before.len() == 0) == (
                    valid_body_line(ls[i as int], before.len() == 0) && valid_from(
                        ls,
                        i as int + 1,
                        true,
                        true,
                        false,
                    )));
                }
                i += 1;
            }
            proof {
                assert(valid_from(ls, i as int, true, true, blocks@.len() == 0) == valid_from(
                    ls,
                    i as int,
                    true,
                    false,
                    false,
                ));
            }
            let ck = Chunk { header: hh, blocks };
            proof {
                let cm = chunk_model(ck);
                let seg = ls.subrange(hh_pos, i as int);
                assert(seg =~= seq![ls[hh_pos]] + ls.subrange(b0, i as int));
                assert(seg[0] == ls[hh_pos]);
                assert(seg.drop_first() =~= ls.subrange(b0, i as int));
                assert(cat(seg) == ls[hh_pos] + cat(ls.subrange(b0, i as int)));
                assert(render_chunk(cm) =~= cat(seg));
                crate::tree::lemma_chunk_models_push(chunks@, ck);
                crate::render::lemma_render_chunks_push(chunk_models(chunks@), cm);
                let whole = ls.subrange(body_start, i as int);
                lemma_cat_split(whole, hh_pos - body_start);
                assert(whole.take(hh_pos - body_start) =~= ls.subrange(body_start, hh_pos));
                assert(whole.skip(hh_pos - body_start) =~= seg);
                assert(cat(ls.subrange(body_start, hh_pos)) + cat(seg) =~= cat(whole));
                assert(wf_chunk(cm)) by {
                    assert(cm.header == ls[hh_pos]);
                }
                assert(forall|ci: int|
                    0 <= ci < chunks@.len() ==> chunk_models(chunks@.push(ck))[ci]
                        == chunk_models(chunks@)[ci]);
                assert(chunk_models(chunks@.push(ck))[chunks@.len() as int] == cm);
            }
            chunks.push(ck);
        }
        if i < n {
            let k2 = file_header_len(&lines, i);
            if k2 == 0 {
                proof {
                    assert(!valid_from(ls, i as int, true, false, false));
                }
                return Err(ParseError::MissingHunkHeader);
            }
        }
        let fd = FileDiff { header, chunks };
        proof {
            let fm = file_model(fd);
            assert(fm.header == cat(ls.subrange(fh_start, body_start)));
            assert(render_file(fm) =~= cat(ls.subrange(fh_start, body_start)) + cat(
                ls.subrange(body_start, i as int),
            ));
            let span = ls.subrange(fh_start, i as int);
            lemma_cat_split(span, body_start - fh_start);
            assert(span.take(body_start - fh_start) =~= ls.subrange(fh_start, body_start));
            assert(span.skip(body_start - fh_start) =~= ls.subrange(body_start, i as int));
            assert(render_file(fm) =~= cat(span));
            crate::tree::lemma_file_models_push(files@, fd);
            crate::render::lemma_render_files_push(file_models(files@), fm);
            let upto = ls.take(i as int);
            lemma_cat_split(upto, fh_start);
            assert(upto.take(fh_start) =~= ls.take(fh_start));
            assert(upto.skip(fh_start) =~= span);
            assert(cat(ls.take(fh_start)) + cat(span) =~= cat(upto));
            lemma_file_header_text(ls, fh_start, k as int);
            assert(is_file_header_text(fm.header));
            assert(wf_file(fm));
            assert(forall|fi: int|
                0 <= fi < files@.len() ==> file_models(files@.push(fd))[fi] == file_models(
                    files@,
                )[fi]);
            assert(file_models(files@.push(fd))[files@.len() as int] == fm);
        }
        files.push(fd);
    }
    proof {
        assert(ls.take(n as int) =~= ls);
        assert(render_files(file_models(files@)) == input@);
        assert(valid_from(ls, n as int, files@.len() > 0, false, false));
    }
    Ok(files)
}

} // verus!

//! Re-serialization of a (possibly filtered) tree back to unified-diff
//! text.
//!
//! Headers render verbatim; a context line renders with a `' '` tag, a
//! removed line with `'-'`, an added line with `'+'`; every removed line of
//! a changed block renders before its added lines. A line's stored tail
//! (its line break and any attached no-newline marker line) renders
//! verbatim after its body.

use vstd::prelude::*;

use crate::tree::block_models;
use crate::tree::chunk_models;
use crate::tree::file_models;
use crate::tree::line_model;
use crate::tree::line_models;
use crate::tree::BlockModel;
use crate::tree::Chunk;
use crate::tree::ChunkBlock;
use crate::tree::ChunkModel;
use crate::tree::DiffLine;
use crate::tree::FileDiff;
use crate::tree::FileDiffModel;
use crate::tree::LineModel;

verus! {

pub open spec fn render_line(tag: char, l: LineModel) -> Seq<char> {
    seq![tag] + l.body + l.tail
}

pub open spec fn render_tagged_lines(tag: char, ls: Seq<LineModel>) -> Seq<char>
    decreases ls.len(),
{
    if ls.len() == 0 {
        Seq::<char>::empty()
    } else {
        render_line(tag, ls[0]) + render_tagged_lines(tag, ls.drop_first())
    }
}

pub open spec fn render_block(b: BlockModel) -> Seq<char> {
    match b {
        BlockModel::Context { lines } => render_tagged_lines(' ', lines),
        BlockModel::Changed { removed, added } => render_tagged_lines('-', removed)
            + render_tagged_lines('+', added),
    }
}

pub open spec fn render_blocks(bs: Seq<BlockModel>) -> Seq<char>
    decreases bs.len(),
{
    if bs.len() == 0 {
        Seq::<char>::empty()
    } else {
        render_block(bs[0]) + render_blocks(bs.drop_first())
    }
}

pub open spec fn render_chunk(c: ChunkModel) -> Seq<char> {
    c.header + render_blocks(c.blocks)
}

pub open spec fn render_chunks(cs: Seq<ChunkModel>) -> Seq<char>
    decreases cs.len(),
{
    if cs.len() == 0 {
        Seq::<char>::empty()
    } else {
        render_chunk(cs[0]) + render_chunks(cs.drop_first())
    }
}

pub open spec fn render_file(f: FileDiffModel) -> Seq<char> {
    f.header + render_chunks(f.chunks)
}

pub open spec fn render_files(fs: Seq<FileDiffModel>) -> Seq<char>
    decreases fs.len(),
{
    if fs.len() == 0 {
        Seq::<char>::empty()
    } else {
        render_file(fs[0]) + render_files(fs.drop_first())
    }
}

pub proof fn lemma_render_tagged_lines_push(tag: char, ls: Seq<LineModel>, l: LineModel)
    ensures
        render_tagged_lines(tag, ls.push(l)) == render_tagged_lines(tag, ls) + render_line(
            tag,
            l,
        ),
    decreases ls.len(),
{
    if ls.len() == 0 {
        assert(ls.push(l).drop_first() =~= Seq::<LineModel>::empty());
        assert(render_tagged_lines(tag, ls.push(l)) == render_line(tag, l)
            + render_tagged_lines(tag, Seq::<LineModel>::empty()));
        assert(render_tagged_lines(tag, ls.push(l)) =~= render_tagged_lines(tag, ls)
            + render_line(tag, l));
    } else {
        lemma_render_tagged_lines_push(tag, ls.drop_first(), l);
        assert(ls.push(l).drop_first() =~= ls.drop_first().push(l));
        assert(render_line(tag, ls[0]) + (render_tagged_lines(tag, ls.drop_first())
            + render_line(tag, l)) =~= (render_line(tag, ls[0]) + render_tagged_lines(
            tag,
            ls.drop_first(),
        )) + render_line(tag, l));
    }
}

pub proof fn lemma_render_blocks_push(bs: Seq<BlockModel>, b: BlockModel)
    ensures
        render_blocks(bs.push(b)) == render_blocks(bs) + render_block(b),
    decreases bs.len(),
{
    if bs.len() == 0 {
        assert(bs.push(b).drop_first() =~= Seq::<BlockModel>::empty());
        assert(render_blocks(bs.push(b)) == render_block(b) + render_blocks(
            Seq::<BlockModel>::empty(),
        ));
        assert(render_blocks(bs.push(b)) =~= render_blocks(bs) + render_block(b));
    } else {
        lemma_render_blocks_push(bs.drop_first(), b);
        assert(bs.push(b).drop_first() =~= bs.drop_first().push(b));
        assert(render_block(bs[0]) + (render_blocks(bs.drop_first()) + render_block(b))
            =~= (render_block(bs[0]) + render_blocks(bs.drop_first())) + render_block(b));
    }
}

pub proof fn lemma_render_chunks_push(cs: Seq<ChunkModel>, c: ChunkModel)
    ensures
        render_chunks(cs.push(c)) == render_chunks(cs) + render_chunk(c),
    decreases cs.len(),
{
    if cs.len() == 0 {
        assert(cs.push(c).drop_first() =~= Seq::<ChunkModel>::empty());
        assert(render_chunks(cs.push(c)) == render_chunk(c) + render_chunks(
            Seq::<ChunkModel>::empty(),
        ));
        assert(render_chunks(cs.push(c)) =~= render_chunks(cs) + render_chunk(c));
    } else {
        lemma_render_chunks_push(cs.drop_first(), c);
        assert(cs.push(c).drop_first() =~= cs.drop_first().push(c));
        assert(render_chunk(cs[0]) + (render_chunks(cs.drop_first()) + render_chunk(c))
            =~= (render_chunk(cs[0]) + render_chunks(cs.drop_first())) + render_chunk(c));
    }
}

pub proof fn lemma_render_files_push(fs: Seq<FileDiffModel>, f: FileDiffModel)
    ensures
        render_files(fs.push(f)) == render_files(fs) + render_file(f),
    decreases fs.len(),
{
    if fs.len() == 0 {
        assert(fs.push(f).drop_first() =~= Seq::<FileDiffModel>::empty());
        assert(render_files(fs.push(f)) == render_file(f) + render_files(
            Seq::<FileDiffModel>::empty(),
        ));
        assert(render_files(fs.push(f)) =~= render_files(fs) + render_file(f));
    } else {
        lemma_render_files_push(fs.drop_first(), f);
        assert(fs.push(f).drop_first() =~= fs.drop_first().push(f));
        assert(render_file(fs[0]) + (render_files(fs.drop_first()) + render_file(f))
            =~= (render_file(fs[0]) + render_files(fs.drop_first())) + render_file(f));
    }
}

fn append_chars(out: &mut Vec<char>, s: &Vec<char>)
    ensures
        final(out)@ == old(out)@ + s@,
{
    out.extend_from_slice(s.as_slice());
}

fn append_line(out: &mut Vec<char>, tag: char, l: &DiffLine)
    ensures
        final(out)@ == old(out)@ + render_line(tag, line_model(*l)),
{
    out.push(tag);
    append_chars(out, &l.body);
    append_chars(out, &l.tail);
    proof {
        assert(out@ =~= old(out)@ + render_line(tag, line_model(*l)));
    }
}

fn append_tagged_lines(out: &mut Vec<char>, tag: char, ls: &Vec<DiffLine>)
    ensures
        final(out)@ == old(out)@ + render_tagged_lines(tag, line_models(ls@)),
{
    let mut i: usize = 0;
    proof {
        assert(line_models(ls@.take(0)) =~= Seq::<LineModel>::empty());
        assert(out@ =~= old(out)@ + render_tagged_lines(tag, line_models(ls@.take(0))));
    }
    while i < ls.len()
        invariant
            0 <= i <= ls@.len(),
            out@ == old(out)@ + render_tagged_lines(tag, line_models(ls@.take(i as int))),
        decreases ls@.len() - i,
    {
        append_line(out, tag, &ls[i]);
        proof {
            let prev = line_models(ls@.take(i as int));
            assert(line_models(ls@.take(i + 1)) =~= prev.push(line_model(ls@[i as int])));
            lemma_render_tagged_lines_push(tag, prev, line_model(ls@[i as int]));
            assert((old(out)@ + render_tagged_lines(tag, prev)) + render_line(
                tag,
                line_model(ls@[i as int]),
            ) =~= old(out)@ + (render_tagged_lines(tag, prev) + render_line(
                tag,
                line_model(ls@[i as int]),
            )));
        }
        i += 1;
    }
    proof {
        assert(ls@.take(ls@.len() as int) =~= ls@);
    }
}

fn append_block(out: &mut Vec<char>, b: &ChunkBlock)
    ensures
        final(out)@ == old(out)@ + render_block(crate::tree::block_model(*b)),
{
    match b {
        ChunkBlock::Context(ls) => {
            append_tagged_lines(out, ' ', ls);
        },
        ChunkBlock::Changed(c) => {
            append_tagged_lines(out, '-', &c.removed);
            append_tagged_lines(out, '+', &c.added);
            proof {
                assert(out@ =~= old(out)@ + render_block(crate::tree::block_model(*b)));
            }
        },
    }
}

fn append_chunk(out: &mut Vec<char>, c: &Chunk)
    ensures
        final(out)@ == old(out)@ + render_chunk(crate::tree::chunk_model(*c)),
{
    append_chars(out, &c.header);
    let mut i: usize = 0;
    proof {
        assert(block_models(c.blocks@.take(0)) =~= Seq::<BlockModel>::empty());
        assert(out@ =~= old(out)@ + c.header@ + render_blocks(
            block_models(c.blocks@.take(0)),
        ));
    }
    while i < c.blocks.len()
        invariant
            0 <= i <= c.blocks@.len(),
            out@ == old(out)@ + c.header@ + render_blocks(
                block_models(c.blocks@.take(i as int)),
            ),
        decreases c.blocks@.len() - i,
    {
        append_block(out, &c.blocks[i]);
        proof {
            let prev = block_models(c.blocks@.take(i as int));
            let bm = crate::tree::block_model(c.blocks@[i as int]);
            assert(block_models(c.blocks@.take(i + 1)) =~= prev.push(bm));
            lemma_render_blocks_push(prev, bm);
            assert((old(out)@ + c.header@ + render_blocks(prev)) + render_block(bm)
                =~= old(out)@ + c.header@ + (render_blocks(prev) + render_block(bm)));
        }
        i += 1;
    }
    proof {
        assert(c.blocks@.take(c.blocks@.len() as int) =~= c.blocks@);
        assert(old(out)@ + c.header@ + render_blocks(block_models(c.blocks@))
            =~= old(out)@ + (c.header@ + render_blocks(block_models(c.blocks@))));
    }
}

fn append_file(out: &mut Vec<char>, f: &FileDiff)
    ensures
        final(out)@ == old(out)@ + render_file(crate::tree::file_model(*f)),
{
    append_chars(out, &f.header);
    let mut i: usize = 0;
    proof {
        assert(chunk_models(f.chunks@.take(0)) =~= Seq::<ChunkModel>::empty());
        assert(out@ =~= old(out)@ + f.header@ + render_chunks(
            chunk_models(f.chunks@.take(0)),
        ));
    }
    while i < f.chunks.len()
        invariant
            0 <= i <= f.chunks@.len(),
            out@ == old(out)@ + f.header@ + render_chunks(
                chunk_models(f.chunks@.take(i as int)),
            ),
        decreases f.chunks@.len() - i,
    {
        append_chunk(out, &f.chunks[i]);
        proof {
            let prev = chunk_models(f.chunks@.take(i as int));
            let cm = crate::tree::chunk_model(f.chunks@[i as int]);
            assert(chunk_models(f.chunks@.take(i + 1)) =~= prev.push(cm));
            lemma_render_chunks_push(prev, cm);
            assert((old(out)@ + f.header@ + render_chunks(prev)) + render_chunk(cm)
                =~= old(out)@ + f.header@ + (render_chunks(prev) + render_chunk(cm)));
        }
        i += 1;
    }
    proof {
        assert(f.chunks@.take(f.chunks@.len() as int) =~= f.chunks@);
        assert(old(out)@ + f.header@ + render_chunks(chunk_models(f.chunks@))
            =~= old(out)@ + (f.header@ + render_chunks(chunk_models(f.chunks@))));
    }
}

/// Serialize a tree of file diffs back to unified-diff text.
pub fn render_file_diffs(diffs: &Vec<FileDiff>) -> (r: Vec<char>)
    ensures
        r@ == render_files(file_models(diffs@)),
{
    let mut out: Vec<char> = Vec::new();
    let mut i: usize = 0;
    proof {
        assert(file_models(diffs@.take(0)) =~= Seq::<FileDiffModel>::empty());
        assert(out@ =~= render_files(file_models(diffs@.take(0))));
    }
    while i < diffs.len()
        invariant
            0 <= i <= diffs@.len(),
            out@ == render_files(file_models(diffs@.take(i as int))),
        decreases diffs@.len() - i,
    {
        append_file(&mut out, &diffs[i]);
        proof {
            let prev = file_models(diffs@.take(i as int));
            let fm = crate::tree::file_model(diffs@[i as int]);
            assert(file_models(diffs@.take(i + 1)) =~= prev.push(fm));
            lemma_render_files_push(prev, fm);
        }
        i += 1;
    }
    proof {
        assert(diffs@.take(diffs@.len() as int) =~= diffs@);
    }
    out
}

} // verus!

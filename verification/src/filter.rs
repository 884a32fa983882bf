//! The noise filter: decide, per changed block, whether it is only a known
//! mechanical substitution, and drop hunks and files that keep no real
//! change.

use vstd::prelude::*;

use crate::rules::apply_replacements;
use crate::rules::transform_removed;
use crate::text::char_vecs_equal;
use crate::text::normalize_lines;
use crate::text::strip_comment;
use crate::tree::block_model;
use crate::tree::block_models;
use crate::tree::chunk_model;
use crate::tree::chunk_models;
use crate::tree::file_model;
use crate::tree::file_models;
use crate::tree::line_models;
use crate::tree::BlockModel;
use crate::tree::Changed;
use crate::tree::Chunk;
use crate::tree::ChunkBlock;
use crate::tree::ChunkModel;
use crate::tree::DiffLine;
use crate::tree::FileDiff;
use crate::tree::FileDiffModel;
use crate::tree::LineModel;

verus! {

pub open spec fn body_views(ls: Seq<LineModel>) -> Seq<Seq<char>> {
    ls.map_values(|l: LineModel| l.body)
}

/// A line group's canonical text: its bodies, canonicalized.
pub open spec fn normalized(ls: Seq<LineModel>) -> Seq<char> {
    normalize_lines(body_views(ls))
}

/// The per-block decision: a changed block is kept when it is a pure
/// insertion or a pure deletion, or when the substitution table does not
/// turn its normalized removed text into exactly its normalized added text.
pub open spec fn keep_changed(removed: Seq<LineModel>, added: Seq<LineModel>) -> bool {
    removed.len() == 0 || added.len() == 0 || transform_removed(normalized(removed))
        != normalized(added)
}

pub open spec fn keep_block(b: BlockModel) -> bool {
    match b {
        BlockModel::Context { .. } => true,
        BlockModel::Changed { removed, added } => keep_changed(removed, added),
    }
}

/// The blocks that survive filtering, in order.
pub open spec fn filter_blocks(bs: Seq<BlockModel>) -> Seq<BlockModel>
    decreases bs.len(),
{
    if bs.len() == 0 {
        Seq::<BlockModel>::empty()
    } else {
        let rest = filter_blocks(bs.drop_first());
        if keep_block(bs[0]) {
            seq![bs[0]] + rest
        } else {
            rest
        }
    }
}

pub open spec fn has_changed_block(bs: Seq<BlockModel>) -> bool {
    exists|i: int| 0 <= i < bs.len() && (#[trigger] bs[i]) is Changed
}

/// A hunk survives exactly when, after filtering its blocks, some changed
/// block remains; context blocks alone carry no information.
pub open spec fn filter_chunk(c: ChunkModel) -> Option<ChunkModel> {
    let fb = filter_blocks(c.blocks);
    if has_changed_block(fb) {
        Some(ChunkModel { header: c.header, blocks: fb })
    } else {
        None
    }
}

pub open spec fn filter_chunks(cs: Seq<ChunkModel>) -> Seq<ChunkModel>
    decreases cs.len(),
{
    if cs.len() == 0 {
        Seq::<ChunkModel>::empty()
    } else {
        let rest = filter_chunks(cs.drop_first());
        match filter_chunk(cs[0]) {
            Some(c) => seq![c] + rest,
            None => rest,
        }
    }
}

/// A file survives exactly when at least one of its hunks survives.
pub open spec fn filter_file(f: FileDiffModel) -> Option<FileDiffModel> {
    let fc = filter_chunks(f.chunks);
    if fc.len() > 0 {
        Some(FileDiffModel { header: f.header, chunks: fc })
    } else {
        None
    }
}

pub open spec fn filter_files(fs: Seq<FileDiffModel>) -> Seq<FileDiffModel>
    decreases fs.len(),
{
    if fs.len() == 0 {
        Seq::<FileDiffModel>::empty()
    } else {
        let rest = filter_files(fs.drop_first());
        match filter_file(fs[0]) {
            Some(f) => seq![f] + rest,
            None => rest,
        }
    }
}

/// Canonicalize a changed group's lines into one comparison string.
pub fn normalize_changed_lines(lines: &Vec<DiffLine>) -> (r: Vec<char>)
    ensures
        r@ == normalized(line_models(lines@)),
{
    let mut joined: Vec<char> = Vec::new();
    let mut k: usize = 0;
    proof {
        assert(crate::text::strip_comments(body_views(line_models(lines@.take(0))))
            =~= Seq::<Seq<char>>::empty());
    }
    while k < lines.len()
        invariant
            0 <= k <= lines@.len(),
            joined@ == crate::text::join_spaced(
                crate::text::strip_comments(body_views(line_models(lines@.take(k as int)))),
            ),
        decreases lines@.len() - k,
    {
        let stripped = strip_comment(&lines[k].body);
        proof {
            let prev = crate::text::strip_comments(
                body_views(line_models(lines@.take(k as int))),
            );
            let next = crate::text::strip_comments(
                body_views(line_models(lines@.take(k + 1))),
            );
            assert(next =~= prev.push(crate::text::strip_comment_marker(lines@[k as int].body@)));
            crate::text::lemma_join_spaced_push(
                prev,
                crate::text::strip_comment_marker(lines@[k as int].body@),
            );
        }
        if k > 0 {
            joined.push(' ');
            joined.extend_from_slice(stripped.as_slice());
            proof {
                let prev = crate::text::strip_comments(
                    body_views(line_models(lines@.take(k as int))),
                );
                assert(prev.len() > 0);
                assert(joined@ =~= crate::text::join_spaced(prev) + seq![' '] + stripped@);
            }
        } else {
            joined.extend_from_slice(stripped.as_slice());
            proof {
                assert(joined@ =~= stripped@);
            }
        }
        k += 1;
    }
    proof {
        assert(lines@.take(lines@.len() as int) =~= lines@);
    }
    let collapsed = crate::text::collapse_whitespace(&joined);
    crate::text::fix_parens(&collapsed)
}

/// Decide one changed block: the block itself when it is kept, nothing when
/// it is noise.
pub fn process_changed_block(changed: Changed) -> (r: Option<ChunkBlock>)
    ensures
        r == if keep_changed(line_models(changed.removed@), line_models(changed.added@)) {
            Some(ChunkBlock::Changed(changed))
        } else {
            None::<ChunkBlock>
        },
{
    if changed.removed.len() == 0 || changed.added.len() == 0 {
        return Some(ChunkBlock::Changed(changed));
    }
    let removed_text = normalize_changed_lines(&changed.removed);
    let added_text = normalize_changed_lines(&changed.added);
    let transformed = apply_replacements(&removed_text);
    if char_vecs_equal(&transformed, &added_text) {
        None
    } else {
        Some(ChunkBlock::Changed(changed))
    }
}

fn process_blocks(blocks: Vec<ChunkBlock>) -> (r: Vec<ChunkBlock>)
    ensures
        block_models(r@) == filter_blocks(block_models(blocks@)),
{
    let mut rest = blocks;
    let mut out: Vec<ChunkBlock> = Vec::new();
    proof {
        assert(block_models(out@) + filter_blocks(block_models(rest@))
            =~= filter_blocks(block_models(rest@)));
    }
    while rest.len() > 0
        invariant
            filter_blocks(block_models(blocks@)) == block_models(out@) + filter_blocks(
                block_models(rest@),
            ),
        decreases rest@.len(),
    {
        let ghost prev = rest@;
        let b = rest.remove(0);
        let ghost bm = block_model(b);
        proof {
            assert(block_models(prev).drop_first() =~= block_models(rest@));
            assert(block_models(prev)[0] == bm);
            assert(filter_blocks(block_models(prev)) == if keep_block(bm) {
                seq![bm] + filter_blocks(block_models(rest@))
            } else {
                filter_blocks(block_models(rest@))
            });
        }
        let kept: Option<ChunkBlock> = match b {
            ChunkBlock::Changed(c) => process_changed_block(c),
            ChunkBlock::Context(ls) => Some(ChunkBlock::Context(ls)),
        };
        match kept {
            Some(b2) => {
                proof {
                    assert(block_model(b2) == bm && keep_block(bm));
                    crate::tree::lemma_block_models_push(out@, b2);
                    assert(block_models(out@).push(bm) + filter_blocks(block_models(rest@))
                        =~= block_models(out@) + (seq![bm] + filter_blocks(
                        block_models(rest@),
                    )));
                }
                out.push(b2);
            },
            None => {
                proof {
                    assert(!keep_block(bm));
                }
            },
        }
    }
    proof {
        assert(block_models(rest@).len() == 0);
        assert(block_models(out@) + filter_blocks(block_models(rest@)) =~= block_models(out@));
    }
    out
}

fn blocks_have_changed(blocks: &Vec<ChunkBlock>) -> (r: bool)
    ensures
        r == has_changed_block(block_models(blocks@)),
{
    let mut i: usize = 0;
    while i < blocks.len()
        invariant
            0 <= i <= blocks@.len(),
            forall|j: int| 0 <= j < i ==> !((#[trigger] block_models(blocks@)[j]) is Changed),
        decreases blocks@.len() - i,
    {
        let is_changed = match &blocks[i] {
            ChunkBlock::Changed(_) => true,
            ChunkBlock::Context(_) => false,
        };
        if is_changed {
            proof {
                assert(block_models(blocks@)[i as int] is Changed);
            }
            return true;
        }
        i += 1;
    }
    false
}

fn process_chunk(chunk: Chunk) -> (r: Option<Chunk>)
    ensures
        r matches Some(c2) ==> filter_chunk(chunk_model(chunk)) == Some(chunk_model(c2)),
        r is None ==> filter_chunk(chunk_model(chunk)) is None,
{
    let Chunk { header, blocks } = chunk;
    let ghost m = chunk_model(chunk);
    let new_blocks = process_blocks(blocks);
    if blocks_have_changed(&new_blocks) {
        let c2 = Chunk { header, blocks: new_blocks };
        proof {
            assert(chunk_model(c2) =~= ChunkModel {
                header: m.header,
                blocks: filter_blocks(m.blocks),
            });
        }
        Some(c2)
    } else {
        None
    }
}

fn process_file(file: FileDiff) -> (r: Option<FileDiff>)
    ensures
        r matches Some(f2) ==> filter_file(file_model(file)) == Some(file_model(f2)),
        r is None ==> filter_file(file_model(file)) is None,
{
    let FileDiff { header, chunks } = file;
    let ghost m = file_model(file);
    let mut rest = chunks;
    let mut out: Vec<Chunk> = Vec::new();
    proof {
        assert(chunk_models(out@) + filter_chunks(chunk_models(rest@))
            =~= filter_chunks(chunk_models(rest@)));
    }
    while rest.len() > 0
        invariant
            filter_chunks(m.chunks) == chunk_models(out@) + filter_chunks(chunk_models(rest@)),
        decreases rest@.len(),
    {
        let ghost prev = rest@;
        let c = rest.remove(0);
        let ghost cm = chunk_model(c);
        proof {
            assert(chunk_models(prev).drop_first() =~= chunk_models(rest@));
            assert(chunk_models(prev)[0] == cm);
            assert(filter_chunks(chunk_models(prev)) == match filter_chunk(cm) {
                Some(x) => seq![x] + filter_chunks(chunk_models(rest@)),
                None => filter_chunks(chunk_models(rest@)),
            });
        }
        match process_chunk(c) {
            Some(c2) => {
                proof {
                    assert(filter_chunk(cm) == Some(chunk_model(c2)));
                    crate::tree::lemma_chunk_models_push(out@, c2);
                    assert(chunk_models(out@).push(chunk_model(c2)) + filter_chunks(
                        chunk_models(rest@),
                    ) =~= chunk_models(out@) + (seq![chunk_model(c2)] + filter_chunks(
                        chunk_models(rest@),
                    )));
                }
                out.push(c2);
            },
            None => {
                proof {
                    assert(filter_chunk(cm) is None);
                }
            },
        }
    }
    proof {
        assert(chunk_models(rest@).len() == 0);
        assert(chunk_models(out@) + filter_chunks(chunk_models(rest@)) =~= chunk_models(out@));
    }
    if out.len() > 0 {
        let f2 = FileDiff { header, chunks: out };
        proof {
            assert(file_model(f2) =~= FileDiffModel {
                header: m.header,
                chunks: filter_chunks(m.chunks),
            });
        }
        Some(f2)
    } else {
        None
    }
}

/// Filter a parsed tree: keep only files, hunks and blocks that represent
/// non-trivial changes.
pub fn process_file_diffs(file_diffs: Vec<FileDiff>) -> (r: Vec<FileDiff>)
    ensures
        file_models(r@) == filter_files(file_models(file_diffs@)),
{
    let ghost orig = file_models(file_diffs@);
    let mut rest = file_diffs;
    let mut out: Vec<FileDiff> = Vec::new();
    proof {
        assert(file_models(out@) + filter_files(file_models(rest@))
            =~= filter_files(file_models(rest@)));
    }
    while rest.len() > 0
        invariant
            filter_files(orig) == file_models(out@) + filter_files(file_models(rest@)),
        decreases rest@.len(),
    {
        let ghost prev = rest@;
        let f = rest.remove(0);
        let ghost fm = file_model(f);
        proof {
            assert(file_models(prev).drop_first() =~= file_models(rest@));
            assert(file_models(prev)[0] == fm);
            assert(filter_files(file_models(prev)) == match filter_file(fm) {
                Some(x) => seq![x] + filter_files(file_models(rest@)),
                None => filter_files(file_models(rest@)),
            });
        }
        match process_file(f) {
            Some(f2) => {
                proof {
                    assert(filter_file(fm) == Some(file_model(f2)));
                    crate::tree::lemma_file_models_push(out@, f2);
                    assert(file_models(out@).push(file_model(f2)) + filter_files(
                        file_models(rest@),
                    ) =~= file_models(out@) + (seq![file_model(f2)] + filter_files(
                        file_models(rest@),
                    )));
                }
                out.push(f2);
            },
            None => {
                proof {
                    assert(filter_file(fm) is None);
                }
            },
        }
    }
    proof {
        assert(file_models(rest@).len() == 0);
        assert(file_models(out@) + filter_files(file_models(rest@)) =~= file_models(out@));
    }
    out
}

/// Filtering keeps every block whose decision is "keep", in particular
/// every pure insertion or pure deletion.
proof fn lemma_filter_blocks_keeps(bs: Seq<BlockModel>, i: int)
    requires
        0 <= i < bs.len(),
        keep_block(bs[i]),
    ensures
        filter_blocks(bs).contains(bs[i]),
    decreases bs.len(),
{
    if i == 0 {
        assert(filter_blocks(bs)[0] == bs[0]);
    } else {
        lemma_filter_blocks_keeps(bs.drop_first(), i - 1);
        let rest = filter_blocks(bs.drop_first());
        let j = choose|j: int| 0 <= j < rest.len() && rest[j] == bs.drop_first()[i - 1];
        if keep_block(bs[0]) {
            assert(filter_blocks(bs)[j + 1] == rest[j]);
        }
        assert(bs.drop_first()[i - 1] == bs[i]);
    }
}

/// A changed block with no removed lines, or with no added lines, is never
/// elided: whenever its hunk survives filtering at all, the block is among
/// the surviving hunk's blocks.
pub proof fn lemma_pure_change_never_elided(c: ChunkModel, i: int, c2: ChunkModel)
    requires
        0 <= i < c.blocks.len(),
        c.blocks[i] matches BlockModel::Changed { removed, added } && (removed.len() == 0
            || added.len() == 0),
        filter_chunk(c) == Some(c2),
    ensures
        c2.blocks.contains(c.blocks[i]),
{
    assert(keep_block(c.blocks[i]));
    lemma_filter_blocks_keeps(c.blocks, i);
}

/// Context blocks are never elided: whenever a hunk survives filtering,
/// every one of its context blocks is among the surviving hunk's blocks.
pub proof fn lemma_context_never_elided(c: ChunkModel, i: int, c2: ChunkModel)
    requires
        0 <= i < c.blocks.len(),
        c.blocks[i] is Context,
        filter_chunk(c) == Some(c2),
    ensures
        c2.blocks.contains(c.blocks[i]),
{
    assert(keep_block(c.blocks[i]));
    lemma_filter_blocks_keeps(c.blocks, i);
}

/// The elision cascade: a hunk survives filtering exactly when a changed
/// block survives among its blocks, and a file survives exactly when at
/// least one of its hunks survives.
pub proof fn lemma_elision_cascade(c: ChunkModel, f: FileDiffModel)
    ensures
        filter_chunk(c) is Some <==> has_changed_block(filter_blocks(c.blocks)),
        filter_file(f) is Some <==> filter_chunks(f.chunks).len() > 0,
{
}

proof fn lemma_filter_blocks_idempotent(bs: Seq<BlockModel>)
    ensures
        filter_blocks(filter_blocks(bs)) == filter_blocks(bs),
    decreases bs.len(),
{
    if bs.len() == 0 {
    } else {
        lemma_filter_blocks_idempotent(bs.drop_first());
        let rest = filter_blocks(bs.drop_first());
        if keep_block(bs[0]) {
            let whole = seq![bs[0]] + rest;
            assert(whole.drop_first() =~= rest);
            assert(whole[0] == bs[0]);
            assert(filter_blocks(whole) =~= seq![bs[0]] + filter_blocks(rest));
        }
    }
}

proof fn lemma_filter_chunk_idempotent(c: ChunkModel, c2: ChunkModel)
    requires
        filter_chunk(c) == Some(c2),
    ensures
        filter_chunk(c2) == Some(c2),
{
    lemma_filter_blocks_idempotent(c.blocks);
}

proof fn lemma_filter_chunks_idempotent(cs: Seq<ChunkModel>)
    ensures
        filter_chunks(filter_chunks(cs)) == filter_chunks(cs),
    decreases cs.len(),
{
    if cs.len() == 0 {
    } else {
        lemma_filter_chunks_idempotent(cs.drop_first());
        let rest = filter_chunks(cs.drop_first());
        match filter_chunk(cs[0]) {
            Some(c2) => {
                lemma_filter_chunk_idempotent(cs[0], c2);
                let whole = seq![c2] + rest;
                assert(whole.drop_first() =~= rest);
                assert(whole[0] == c2);
                assert(filter_chunks(whole) =~= seq![c2] + filter_chunks(rest));
            },
            None => {},
        }
    }
}

proof fn lemma_filter_file_idempotent(f: FileDiffModel, f2: FileDiffModel)
    requires
        filter_file(f) == Some(f2),
    ensures
        filter_file(f2) == Some(f2),
{
    lemma_filter_chunks_idempotent(f.chunks);
}

/// Filtering is idempotent on trees: filtering an already filtered tree
/// changes nothing.
pub proof fn lemma_filter_idempotent(fs: Seq<FileDiffModel>)
    ensures
        filter_files(filter_files(fs)) == filter_files(fs),
    decreases fs.len(),
{
    if fs.len() == 0 {
    } else {
        lemma_filter_idempotent(fs.drop_first());
        let rest = filter_files(fs.drop_first());
        match filter_file(fs[0]) {
            Some(f2) => {
                lemma_filter_file_idempotent(fs[0], f2);
                let whole = seq![f2] + rest;
                assert(whole.drop_first() =~= rest);
                assert(whole[0] == f2);
                assert(filter_files(whole) =~= seq![f2] + filter_files(rest));
            },
            None => {},
        }
    }
}

} // verus!

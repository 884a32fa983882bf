//! The structured form of a unified diff: files, hunks and blocks, together
//! with the mathematical models that the contracts speak about.

use vstd::prelude::*;

verus! {

/// One line of hunk content, stored without its leading tag character.
///
/// `body` is the line's text up to (and not including) its line break.
/// `tail` is everything that follows the body verbatim: the line break, if
/// the line has one, and, when a "no newline at end of file" marker line
/// follows, that whole marker line (the marker is an annotation attached to
/// the line it follows, not content of its own).
pub struct DiffLine {
    pub body: Vec<char>,
    pub tail: Vec<char>,
}

/// A maximal run of removed lines followed by added lines.
pub struct Changed {
    pub removed: Vec<DiffLine>,
    pub added: Vec<DiffLine>,
}

/// One block of a hunk: either a run of unchanged context lines or a
/// removed/added group.
pub enum ChunkBlock {
    Context(Vec<DiffLine>),
    Changed(Changed),
}

/// One `@@ ... @@` region: its verbatim header line and its blocks.
pub struct Chunk {
    pub header: Vec<char>,
    pub blocks: Vec<ChunkBlock>,
}

/// One changed file: its verbatim header text and its hunks.
pub struct FileDiff {
    pub header: Vec<char>,
    pub chunks: Vec<Chunk>,
}

/// Why parsing rejected the input.
#[derive(Debug)]
pub enum ParseError {
    /// The input is not empty and does not begin with a file header.
    MissingFileHeader,
    /// A file section's content does not begin with a hunk header.
    MissingHunkHeader,
    /// A hunk content line starts with none of the recognized markers
    /// (space, `-`, `+`, or the no-newline marker `\`).
    BadLineTag,
    /// A no-newline marker line does not carry the expected literal text.
    BadAnnotation,
    /// A no-newline marker line stands first in a hunk, with no line to
    /// attach to.
    OrphanAnnotation,
}

/// Mathematical model of a `DiffLine`.
pub ghost struct LineModel {
    pub body: Seq<char>,
    pub tail: Seq<char>,
}

/// Mathematical model of a `ChunkBlock`.
pub ghost enum BlockModel {
    Context { lines: Seq<LineModel> },
    Changed { removed: Seq<LineModel>, added: Seq<LineModel> },
}

/// Mathematical model of a `Chunk`.
pub ghost struct ChunkModel {
    pub header: Seq<char>,
    pub blocks: Seq<BlockModel>,
}

/// Mathematical model of a `FileDiff`.
pub ghost struct FileDiffModel {
    pub header: Seq<char>,
    pub chunks: Seq<ChunkModel>,
}

pub open spec fn line_model(l: DiffLine) -> LineModel {
    LineModel { body: l.body@, tail: l.tail@ }
}

pub open spec fn line_models(s: Seq<DiffLine>) -> Seq<LineModel> {
    s.map_values(|l: DiffLine| line_model(l))
}

pub open spec fn block_model(b: ChunkBlock) -> BlockModel {
    match b {
        ChunkBlock::Context(ls) => BlockModel::Context { lines: line_models(ls@) },
        ChunkBlock::Changed(c) => BlockModel::Changed {
            removed: line_models(c.removed@),
            added: line_models(c.added@),
        },
    }
}

pub open spec fn block_models(s: Seq<ChunkBlock>) -> Seq<BlockModel> {
    s.map_values(|b: ChunkBlock| block_model(b))
}

pub open spec fn chunk_model(c: Chunk) -> ChunkModel {
    ChunkModel { header: c.header@, blocks: block_models(c.blocks@) }
}

pub open spec fn chunk_models(s: Seq<Chunk>) -> Seq<ChunkModel> {
    s.map_values(|c: Chunk| chunk_model(c))
}

pub open spec fn file_model(f: FileDiff) -> FileDiffModel {
    FileDiffModel { header: f.header@, chunks: chunk_models(f.chunks@) }
}

pub open spec fn file_models(s: Seq<FileDiff>) -> Seq<FileDiffModel> {
    s.map_values(|f: FileDiff| file_model(f))
}

pub proof fn lemma_line_models_push(s: Seq<DiffLine>, l: DiffLine)
    ensures
        line_models(s.push(l)) == line_models(s).push(line_model(l)),
{
    assert(line_models(s.push(l)) =~= line_models(s).push(line_model(l)));
}

pub proof fn lemma_block_models_push(s: Seq<ChunkBlock>, b: ChunkBlock)
    ensures
        block_models(s.push(b)) == block_models(s).push(block_model(b)),
{
    assert(block_models(s.push(b)) =~= block_models(s).push(block_model(b)));
}

pub proof fn lemma_chunk_models_push(s: Seq<Chunk>, c: Chunk)
    ensures
        chunk_models(s.push(c)) == chunk_models(s).push(chunk_model(c)),
{
    assert(chunk_models(s.push(c)) =~= chunk_models(s).push(chunk_model(c)));
}

pub proof fn lemma_file_models_push(s: Seq<FileDiff>, f: FileDiff)
    ensures
        file_models(s.push(f)) == file_models(s).push(file_model(f)),
{
    assert(file_models(s.push(f)) =~= file_models(s).push(file_model(f)));
}

} // verus!

//! The block table and per-language groups.
//!
//! A `Block` is one fenced region: the byte range of its content inside the
//! document and the content itself, which a formatter may later replace.  A
//! `LangBlocks` gathers the indices of all blocks of one language, in document
//! order, together with the batch buffer handed to that language's formatter.

use vstd::prelude::*;

use crate::bytes::append_range;
use crate::config::LanguageConfig;

verus! {

/// The boundary marker placed after each comment token between batched
/// blocks: `__mdfmt__` followed by a newline.
pub open spec fn sep_spec() -> Seq<u8> {
    seq![95u8, 95u8, 109u8, 100u8, 102u8, 109u8, 116u8, 95u8, 95u8, 10u8]
}

/// The boundary-marker bytes.
pub fn sep_bytes() -> (r: Vec<u8>)
    ensures
        r@ == sep_spec(),
{
    let mut v: Vec<u8> = Vec::new();
    v.push(95);
    v.push(95);
    v.push(109);
    v.push(100);
    v.push(102);
    v.push(109);
    v.push(116);
    v.push(95);
    v.push(95);
    v.push(10);
    proof {
        assert(v@ =~= sep_spec());
    }
    v
}

/// A language tag together with its resolved configuration.
pub struct Language {
    pub name: Vec<u8>,
    pub cfg: LanguageConfig,
}

impl Language {
    pub fn new(name: Vec<u8>, cfg: LanguageConfig) -> (r: Language)
        ensures
            r.name == name,
            r.cfg == cfg,
    {
        Language { name, cfg }
    }
}

/// One extracted fenced region: content byte range inside the document
/// (excluding the fence lines) and the current content.
pub struct Block {
    pub start: usize,
    pub end: usize,
    pub data: Vec<u8>,
}

/// The blocks of one language: their indices into the block table, in
/// document order, and the batch buffer for the language's formatter.
pub struct LangBlocks {
    pub lang: Language,
    pub blocks: Vec<usize>,
    pub joined_data: Vec<u8>,
}

impl LangBlocks {
    pub fn new(lang: Language) -> (r: LangBlocks)
        ensures
            r.lang == lang,
            r.blocks@.len() == 0,
            r.joined_data@.len() == 0,
    {
        LangBlocks { lang, blocks: Vec::new(), joined_data: Vec::new() }
    }

    /// Registers block `idx` as owned by this language and appends the
    /// comment token, the boundary marker, and the block's content to the
    /// batch buffer, in that order.
    pub fn add(&mut self, data: &[u8], idx: usize)
        ensures
            final(self).lang == old(self).lang,
            final(self).blocks@ == old(self).blocks@.push(idx),
            final(self).joined_data@ == old(self).joined_data@ + old(
                self,
            ).lang.cfg.comment_token@ + sep_spec() + data@,
    {
        self.blocks.push(idx);
        let token_len = self.lang.cfg.comment_token.len();
        let token = crate::bytes::copy_bytes(self.lang.cfg.comment_token.as_slice());
        append_range(&mut self.joined_data, token.as_slice(), 0, token_len);
        let mut sep = sep_bytes();
        self.joined_data.append(&mut sep);
        append_range(&mut self.joined_data, data, 0, data.len());
        proof {
            assert(self.joined_data@ =~= old(self).joined_data@ + old(
                self,
            ).lang.cfg.comment_token@ + sep_spec() + data@);
        }
    }
}

/// The ordered, index-addressed table of every extracted block, recognized
/// or not, that drives final reassembly.
pub struct Blocks {
    pub items: Vec<Block>,
}

impl Blocks {
    pub fn new() -> (r: Blocks)
        ensures
            r.items@.len() == 0,
    {
        Blocks { items: Vec::new() }
    }

    /// Appends `block` to the table and returns its index.
    pub fn push(&mut self, block: Block) -> (idx: usize)
        ensures
            final(self).items@ == old(self).items@.push(block),
            idx == old(self).items@.len(),
    {
        let idx = self.items.len();
        self.items.push(block);
        idx
    }

    /// Replaces the content of block `idx`, leaving its byte range and every
    /// other block unchanged.
    pub fn set_data(&mut self, idx: usize, data: Vec<u8>)
        requires
            idx < old(self).items@.len(),
        ensures
            final(self).items@.len() == old(self).items@.len(),
            final(self).items@[idx as int].start == old(self).items@[idx as int].start,
            final(self).items@[idx as int].end == old(self).items@[idx as int].end,
            final(self).items@[idx as int].data == data,
            forall|j: int|
                0 <= j < old(self).items@.len() && j != idx ==> final(self).items@[j] == old(
                    self,
                ).items@[j],
    {
        let old_block = self.items.remove(idx);
        self.items.insert(idx, Block { start: old_block.start, end: old_block.end, data });
    }
}

} // verus!

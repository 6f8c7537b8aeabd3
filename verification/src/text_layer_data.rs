//! A text layer's blocks and its cache bookkeeping: the generation counters that say when
//! the layer must be rasterized again, adding, finding and pruning blocks.
use vstd::prelude::*;
use crate::text_block::{TextBlock, TextRun, TextStyle};

verus! {

/// The text content of a text layer together with the counters that drive its caches.
pub struct TextLayerData {
    /// Independent text blocks within this layer.
    pub blocks: Vec<TextBlock>,
    /// Bumped on every edit.
    pub cache_generation: u64,
    /// The generation last rasterized into the layer's pixels.
    pub raster_generation: u64,
    /// The identifier the next new block gets.
    pub next_block_id: u64,
    /// Bumped when the text content changes.
    pub text_content_generation: u64,
    /// Bumped when a block moves.
    pub position_generation: u64,
}

/// The counter after `g`, wrapping to 0 after `u64::MAX`.
pub open spec fn next_gen(g: u64) -> u64 {
    if g == u64::MAX { 0 } else { (g + 1) as u64 }
}

/// Whether a block holds any text.
pub open spec fn has_text(b: TextBlock) -> bool {
    exists|k: int| 0 <= k < b.runs@.len() && #[trigger] b.runs@[k].text@.len() > 0
}

/// `has_text` as a predicate to filter by.
pub open spec fn has_text_pred() -> spec_fn(TextBlock) -> bool {
    |b: TextBlock| has_text(b)
}

/// Block `i` is the first block with identifier `id`.
pub open spec fn first_with_id(blocks: Seq<TextBlock>, id: u64, i: int) -> bool {
    &&& 0 <= i < blocks.len()
    &&& blocks[i].id == id
    &&& forall|j: int| 0 <= j < i ==> #[trigger] blocks[j].id != id
}

/// No block has identifier `id`.
pub open spec fn no_block_with_id(blocks: Seq<TextBlock>, id: u64) -> bool {
    forall|j: int| 0 <= j < blocks.len() ==> #[trigger] blocks[j].id != id
}

/// The texts of all blocks, concatenated in block order.
pub open spec fn layer_text(blocks: Seq<TextBlock>) -> Seq<char>
    decreases blocks.len(),
{
    if blocks.len() == 0 {
        Seq::empty()
    } else {
        layer_text(blocks.drop_last()) + blocks.last().flat_view()
    }
}

impl TextLayerData {
    /// Every block's identifier was handed out already: it is below `next_block_id`.
    pub open spec fn wf(&self) -> bool {
        forall|i: int| 0 <= i < self.blocks@.len() ==> #[trigger] self.blocks@[i].id < self.next_block_id
    }

    /// The cached pixels are stale.
    pub open spec fn stale(&self) -> bool {
        self.cache_generation != self.raster_generation
    }

    /// `new` is `old` marked dirty in every respect: cache, text content and position
    /// generations each move on by one; nothing else changes.
    pub open spec fn marked_dirty(old: TextLayerData, new: TextLayerData) -> bool {
        &&& new.cache_generation == next_gen(old.cache_generation)
        &&& new.text_content_generation == next_gen(old.text_content_generation)
        &&& new.position_generation == next_gen(old.position_generation)
        &&& new.raster_generation == old.raster_generation
        &&& new.next_block_id == old.next_block_id
    }

    /// Whether the cached pixels are stale.
    pub fn needs_rasterize(&self) -> (r: bool)
        ensures
            r == self.stale(),
    {
        self.cache_generation != self.raster_generation
    }

    /// Mark the text as edited: the cache, text content and position generations move on.
    pub fn mark_dirty(&mut self)
        ensures
            TextLayerData::marked_dirty(*old(self), *final(self)),
            final(self).blocks@ == old(self).blocks@,
    {
        self.cache_generation = self.cache_generation.wrapping_add(1);
        self.text_content_generation = self.text_content_generation.wrapping_add(1);
        self.position_generation = self.position_generation.wrapping_add(1);
    }

    /// Mark only the effects as changed: the cache generation moves on, the text content
    /// and position generations stay.
    pub fn mark_effects_dirty(&mut self)
        ensures
            *final(self) == (TextLayerData { cache_generation: next_gen(old(self).cache_generation), ..*old(self) }),
    {
        self.cache_generation = self.cache_generation.wrapping_add(1);
    }

    /// Mark a position-only change: the cache and position generations move on, the text
    /// content generation stays.
    pub fn mark_position_dirty(&mut self)
        ensures
            *final(self) == (TextLayerData {
                cache_generation: next_gen(old(self).cache_generation),
                position_generation: next_gen(old(self).position_generation),
                ..*old(self)
            }),
    {
        self.cache_generation = self.cache_generation.wrapping_add(1);
        self.position_generation = self.position_generation.wrapping_add(1);
    }

    /// The texts of all blocks concatenated.
    pub fn flat_text(&self) -> (s: String)
        ensures
            s@ == layer_text(self.blocks@),
    {
        let mut out = String::new();
        let n = self.blocks.len();
        let mut i: usize = 0;
        while i < n
            invariant
                n == self.blocks@.len(),
                i <= n,
                out@ == layer_text(self.blocks@.take(i as int)),
            decreases n - i,
        {
            let piece = self.blocks[i].flat_text();
            out.append(piece.as_str());
            proof {
                assert(self.blocks@.take(i + 1).drop_last() =~= self.blocks@.take(i as int));
            }
            i += 1;
        }
        proof {
            assert(self.blocks@.take(n as int) =~= self.blocks@);
        }
        out
    }

    /// The style of the first run of the first block; `None` when there is no such run,
    /// where the caller falls back to its default style.
    pub fn primary_style(&self) -> (r: Option<&TextStyle>)
        ensures
            r == (if self.blocks@.len() > 0 && self.blocks@[0].runs@.len() > 0 {
                Some(&self.blocks@[0].runs@[0].style)
            } else {
                None
            }),
    {
        if self.blocks.len() > 0 && self.blocks[0].runs.len() > 0 {
            Some(&self.blocks[0].runs[0].style)
        } else {
            None
        }
    }

    /// Add an empty block at `(x, y)` (given as `f32` bit patterns), with no rotation and
    /// one empty run in the primary style (or `default_style` when the layer has no run),
    /// mark the layer dirty, and return the new block's identifier.
    pub fn add_block(&mut self, x_bits: u32, y_bits: u32, default_style: &TextStyle) -> (id: u64)
        requires
            old(self).next_block_id < u64::MAX,
        ensures
            id == old(self).next_block_id,
            final(self).next_block_id == id + 1,
            final(self).cache_generation == next_gen(old(self).cache_generation),
            final(self).text_content_generation == next_gen(old(self).text_content_generation),
            final(self).position_generation == next_gen(old(self).position_generation),
            final(self).raster_generation == old(self).raster_generation,
            final(self).blocks@.len() == old(self).blocks@.len() + 1,
            final(self).blocks@.drop_last() == old(self).blocks@,
            final(self).blocks@.last().id == id,
            final(self).blocks@.last().position_bits == [x_bits, y_bits],
            final(self).blocks@.last().rotation_bits == 0,
            final(self).blocks@.last().glyph_overrides@.len() == 0,
            final(self).blocks@.last().runs@.len() == 1,
            final(self).blocks@.last().runs@[0].text@ == Seq::<char>::empty(),
            final(self).blocks@.last().runs@[0].style == (if old(self).blocks@.len() > 0 && old(self).blocks@[0].runs@.len() > 0 {
                old(self).blocks@[0].runs@[0].style
            } else {
                *default_style
            }),
            old(self).wf() ==> final(self).wf(),
    {
        let id = self.next_block_id;
        self.next_block_id = self.next_block_id + 1;
        let style = match self.primary_style() {
            Some(s) => s.duplicate(),
            None => default_style.duplicate(),
        };
        let run = TextRun { text: String::new(), style };
        let mut runs: Vec<TextRun> = Vec::new();
        runs.push(run);
        let block = TextBlock { id, position_bits: [x_bits, y_bits], rotation_bits: 0, runs, glyph_overrides: Vec::new() };
        let ghost before = self.blocks@;
        self.blocks.push(block);
        proof {
            assert(self.blocks@.drop_last() =~= before);
        }
        self.mark_dirty();
        id
    }

    /// Whether a block holds any text.
    pub fn block_has_text(block: &TextBlock) -> (r: bool)
        ensures
            r == has_text(*block),
    {
        let n = block.runs.len();
        let mut k: usize = 0;
        while k < n
            invariant
                n == block.runs@.len(),
                k <= n,
                forall|j: int| 0 <= j < k ==> #[trigger] block.runs@[j].text@.len() == 0,
            decreases n - k,
        {
            if !block.runs[k].text.as_str().is_empty() {
                return true;
            }
            k += 1;
        }
        false
    }

    /// Remove the blocks that hold no text, keeping the others in order; mark the layer
    /// dirty when any was removed, and return how many were.
    pub fn remove_empty_blocks(&mut self) -> (removed: usize)
        ensures
            final(self).blocks@ == old(self).blocks@.filter(has_text_pred()),
            removed == old(self).blocks@.len() - final(self).blocks@.len(),
            removed > 0 ==> TextLayerData::marked_dirty(*old(self), *final(self)),
            removed == 0 ==> final(self).blocks@ == old(self).blocks@,
            removed == 0 ==> final(self).cache_generation == old(self).cache_generation,
            removed == 0 ==> final(self).text_content_generation == old(self).text_content_generation,
            removed == 0 ==> final(self).position_generation == old(self).position_generation,
            final(self).raster_generation == old(self).raster_generation,
            final(self).next_block_id == old(self).next_block_id,
    {
        let ghost orig = self.blocks@;
        let n = self.blocks.len();
        let mut i: usize = 0;
        let mut j: usize = 0;
        proof {
            reveal(Seq::filter);
            assert(orig.take(0) =~= Seq::<TextBlock>::empty());
            assert(orig.skip(0) =~= orig);
        }
        while j < n
            invariant
                n == orig.len(),
                orig == old(self).blocks@,
                j <= n,
                i == orig.take(j as int).filter(has_text_pred()).len(),
                self.blocks@ == orig.take(j as int).filter(has_text_pred()) + orig.skip(j as int),
                self.cache_generation == old(self).cache_generation,
                self.raster_generation == old(self).raster_generation,
                self.next_block_id == old(self).next_block_id,
                self.text_content_generation == old(self).text_content_generation,
                self.position_generation == old(self).position_generation,
            decreases n - j,
        {
            let ghost kept = orig.take(j as int).filter(has_text_pred());
            proof {
                reveal(Seq::filter);
                assert(orig.take(j + 1).drop_last() =~= orig.take(j as int));
                assert(orig.take(j + 1).last() == orig[j as int]);
                assert(self.blocks@[i as int] == orig[j as int]);
            }
            if TextLayerData::block_has_text(&self.blocks[i]) {
                proof {
                    assert(orig.take(j + 1).filter(has_text_pred()) == kept.push(orig[j as int]));
                    assert(kept.push(orig[j as int]) + orig.skip(j + 1) =~= self.blocks@);
                }
                i += 1;
            } else {
                self.blocks.remove(i);
                proof {
                    assert(orig.take(j + 1).filter(has_text_pred()) == kept);
                    assert(kept + orig.skip(j + 1) =~= self.blocks@);
                }
            }
            j += 1;
        }
        proof {
            assert(orig.take(n as int) =~= orig);
            assert(orig.skip(n as int) =~= Seq::<TextBlock>::empty());
            assert(self.blocks@ =~= orig.filter(has_text_pred()));
            orig.lemma_filter_len(has_text_pred());
            lemma_filter_full(orig);
        }
        let removed = n - self.blocks.len();
        if removed > 0 {
            self.mark_dirty();
        }
        removed
    }

    /// The index of the first block with identifier `id`, if any.
    pub fn block_index_by_id(&self, id: u64) -> (r: Option<usize>)
        ensures
            match r {
                Some(i) => first_with_id(self.blocks@, id, i as int),
                None => no_block_with_id(self.blocks@, id),
            },
    {
        let n = self.blocks.len();
        let mut i: usize = 0;
        while i < n
            invariant
                n == self.blocks@.len(),
                i <= n,
                forall|j: int| 0 <= j < i ==> #[trigger] self.blocks@[j].id != id,
            decreases n - i,
        {
            if self.blocks[i].id == id {
                return Some(i);
            }
            i += 1;
        }
        None
    }
}

/// Filtering that drops nothing leaves the sequence as it was.
proof fn lemma_filter_full(blocks: Seq<TextBlock>)
    ensures
        blocks.filter(has_text_pred()).len() == blocks.len() ==> blocks.filter(has_text_pred()) == blocks,
    decreases blocks.len(),
{
    reveal(Seq::filter);
    if blocks.len() > 0 {
        lemma_filter_full(blocks.drop_last());
        blocks.drop_last().lemma_filter_len(has_text_pred());
        if blocks.filter(has_text_pred()).len() == blocks.len() {
            assert(blocks.drop_last().push(blocks.last()) =~= blocks);
        }
    }
}

/// A layer whose pixels were up to date needs rasterizing after any of the three marks.
pub proof fn lemma_marks_make_stale(l: TextLayerData)
    requires
        !l.stale(),
    ensures
        (TextLayerData { cache_generation: next_gen(l.cache_generation), ..l }).stale(),
        (TextLayerData {
            cache_generation: next_gen(l.cache_generation),
            position_generation: next_gen(l.position_generation),
            ..l
        }).stale(),
        forall|n: TextLayerData| TextLayerData::marked_dirty(l, n) ==> #[trigger] n.stale(),
{
}

/// The block that `add_block` made is the one found by its identifier, at the end.
pub proof fn lemma_added_block_found(old_layer: TextLayerData, new_layer: TextLayerData, id: u64)
    requires
        old_layer.wf(),
        id == old_layer.next_block_id,
        new_layer.blocks@.drop_last() == old_layer.blocks@,
        new_layer.blocks@.len() == old_layer.blocks@.len() + 1,
        new_layer.blocks@.last().id == id,
    ensures
        first_with_id(new_layer.blocks@, id, old_layer.blocks@.len() as int),
{
    assert forall|j: int| 0 <= j < old_layer.blocks@.len() implies #[trigger] new_layer.blocks@[j].id != id by {
        assert(new_layer.blocks@[j] == new_layer.blocks@.drop_last()[j]);
        assert(old_layer.blocks@[j].id < old_layer.next_block_id);
    }
}

/// Removing empty blocks a second time removes nothing.
pub proof fn lemma_remove_empty_idempotent(blocks: Seq<TextBlock>)
    ensures
        blocks.filter(has_text_pred()).filter(has_text_pred()) == blocks.filter(has_text_pred()),
    decreases blocks.len(),
{
    reveal(Seq::filter);
    if blocks.len() > 0 {
        lemma_remove_empty_idempotent(blocks.drop_last());
        let sub = blocks.drop_last().filter(has_text_pred());
        if has_text(blocks.last()) {
            assert(sub.push(blocks.last()).drop_last() =~= sub);
        }
    }
}

/// After removing empty blocks, every block left holds text, and every block that held
/// text is still there.
pub proof fn lemma_remove_empty_keeps_text_blocks(blocks: Seq<TextBlock>)
    ensures
        forall|i: int| 0 <= i < blocks.filter(has_text_pred()).len() ==> has_text(#[trigger] blocks.filter(has_text_pred())[i]),
        forall|i: int| 0 <= i < blocks.len() && has_text(#[trigger] blocks[i]) ==> blocks.filter(has_text_pred()).contains(blocks[i]),
{
    assert forall|i: int| 0 <= i < blocks.filter(has_text_pred()).len() implies has_text(#[trigger] blocks.filter(has_text_pred())[i]) by {
        blocks.lemma_filter_pred(has_text_pred(), i);
    }
    assert forall|i: int| 0 <= i < blocks.len() && has_text(#[trigger] blocks[i]) implies blocks.filter(has_text_pred()).contains(blocks[i]) by {
        blocks.lemma_filter_contains(has_text_pred(), i);
    }
}

} // verus!

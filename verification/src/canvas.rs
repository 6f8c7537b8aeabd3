//! The layered canvas, the undo record of layer operations, and the canvas-level layer
//! operations (add, delete, duplicate, merge down as mask).
use vstd::prelude::*;
use crate::raster::{RgbaImage, GrayImage, pix_idx, prefix_matches, push_pixel, lemma_prefix_complete, lemma_row_step, get_px};

verus! {

/// What a layer holds besides its pixels.
pub enum LayerContent {
    /// Plain pixels.
    Raster,
    /// Editable text whose pixels are produced by the text rasterizer.
    Text,
}

/// One layer of the canvas.
pub struct Layer {
    pub name: String,
    pub pixels: RgbaImage,
    pub visible: bool,
    /// Layer opacity on a 0..=255 scale.
    pub opacity: u8,
    pub content: LayerContent,
}

/// The document: canvas size, layer stack (bottom first), active layer, selection.
pub struct CanvasState {
    pub width: u32,
    pub height: u32,
    pub layers: Vec<Layer>,
    pub active_layer_index: usize,
    /// Selection as a grey mask (0 = unselected); `None` selects everything.
    pub selection_mask: Option<GrayImage>,
    /// Set when the canvas must be redrawn.
    pub dirty: bool,
}

/// One undoable layer operation.
pub enum LayerOperation {
    Add { index: usize, name: String, width: u32, height: u32 },
    Delete { index: usize, pixels: RgbaImage, name: String, visible: bool, opacity: u8, content: LayerContent },
    Duplicate {
        source_index: usize,
        new_index: usize,
        pixels: RgbaImage,
        name: String,
        visible: bool,
        opacity: u8,
        content: LayerContent,
    },
}

/// The undo history: recorded operations, oldest first.
pub struct HistoryManager {
    pub entries: Vec<LayerOperation>,
}

impl HistoryManager {
    pub fn new() -> (h: Self)
        ensures
            h.entries@.len() == 0,
    {
        HistoryManager { entries: Vec::new() }
    }

    pub fn push(&mut self, op: LayerOperation)
        ensures
            final(self).entries@ == old(self).entries@.push(op),
    {
        self.entries.push(op);
    }
}

impl Layer {
    /// A layer has the size of its canvas.
    pub open spec fn fits(&self, w: u32, h: u32) -> bool {
        &&& self.pixels.wf()
        &&& self.pixels.width == w
        &&& self.pixels.height == h
    }

    /// The same layer with its pixels replaced.
    pub open spec fn with_pixels(self, pixels: RgbaImage) -> Layer {
        Layer { pixels, ..self }
    }
}

impl CanvasState {
    /// Every layer is canvas-sized, there is at least one layer and the active index names
    /// one of them, the selection mask is well formed, and a canvas-sized RGBA buffer fits in memory.
    pub open spec fn wf(&self) -> bool {
        &&& self.width as int * self.height as int * 4 <= usize::MAX
        &&& self.layers@.len() >= 1
        &&& self.active_layer_index < self.layers@.len()
        &&& forall|i: int| 0 <= i < self.layers@.len() ==> #[trigger] self.layers@[i].fits(self.width, self.height)
        &&& match self.selection_mask {
            None => true,
            Some(m) => m.wf(),
        }
    }

    /// `new` is `old` with the pixels of layer `idx` replaced by `pixels` and marked for redraw.
    pub open spec fn replaced_pixels(old: CanvasState, new: CanvasState, idx: int, pixels: RgbaImage) -> bool {
        &&& new.width == old.width
        &&& new.height == old.height
        &&& new.active_layer_index == old.active_layer_index
        &&& new.selection_mask == old.selection_mask
        &&& new.dirty
        &&& new.layers@ == old.layers@.update(idx, old.layers@[idx].with_pixels(pixels))
    }

    /// Selection mask as an optional reference.
    pub fn mask_ref(&self) -> (m: Option<&GrayImage>)
        ensures
            crate::raster::mask_view(m) == self.selection_mask,
            crate::raster::mask_wf(m) == (match self.selection_mask {
                None => true,
                Some(mm) => mm.wf(),
            }),
    {
        match &self.selection_mask {
            Some(m) => Some(m),
            None => None,
        }
    }

    /// Mark the canvas for redraw.
    pub fn mark_dirty(&mut self)
        ensures
            *final(self) == (CanvasState { dirty: true, ..*old(self) }),
    {
        self.dirty = true;
    }
}

/// Replace the pixels of layer `layer_idx` with `result` (ignored when the index is out of range).
pub fn commit_to_layer(state: &mut CanvasState, layer_idx: usize, result: RgbaImage)
    ensures
        layer_idx >= old(state).layers@.len() ==> *final(state) == *old(state),
        layer_idx < old(state).layers@.len() ==> CanvasState::replaced_pixels(*old(state), *final(state), layer_idx as int, result),
{
    if layer_idx >= state.layers.len() {
        return;
    }
    let mut layer = state.layers.remove(layer_idx);
    layer.pixels = result;
    state.layers.insert(layer_idx, layer);
    proof {
        assert(state.layers@ =~= old(state).layers@.update(layer_idx as int, old(state).layers@[layer_idx as int].with_pixels(result)));
    }
    state.dirty = true;
}


/// Decimal digits of `n`, most significant first.
pub open spec fn decimal(n: nat) -> Seq<char>
    decreases n,
{
    if n < 10 {
        seq![(('0' as int) + n) as char]
    } else {
        decimal(n / 10).push((('0' as int) + (n % 10)) as char)
    }
}

/// The decimal digit `d` as a one-character string.
fn digit_str(d: usize) -> (s: &'static str)
    requires
        d < 10,
    ensures
        s@ == seq![(('0' as int) + d) as char],
{
    match d {
        0 => {
            proof {
                reveal_strlit("0");
            }
            "0"
        },
        1 => {
            proof {
                reveal_strlit("1");
            }
            "1"
        },
        2 => {
            proof {
                reveal_strlit("2");
            }
            "2"
        },
        3 => {
            proof {
                reveal_strlit("3");
            }
            "3"
        },
        4 => {
            proof {
                reveal_strlit("4");
            }
            "4"
        },
        5 => {
            proof {
                reveal_strlit("5");
            }
            "5"
        },
        6 => {
            proof {
                reveal_strlit("6");
            }
            "6"
        },
        7 => {
            proof {
                reveal_strlit("7");
            }
            "7"
        },
        8 => {
            proof {
                reveal_strlit("8");
            }
            "8"
        },
        _ => {
            proof {
                reveal_strlit("9");
            }
            "9"
        },
    }
}

/// Append the decimal digits of `n` to `s`.
fn push_decimal(s: &mut String, n: usize)
    ensures
        final(s)@ == old(s)@ + decimal(n as nat),
    decreases n,
{
    if n >= 10 {
        push_decimal(s, n / 10);
    }
    s.append(digit_str(n % 10));
    proof {
        if n >= 10 {
            assert(decimal(n as nat) == decimal((n / 10) as nat).push((('0' as int) + (n % 10)) as char));
        }
    }
}

/// `n` written in decimal.
pub(crate) fn decimal_string(n: usize) -> (s: String)
    ensures
        s@ == decimal(n as nat),
{
    let mut s = String::new();
    push_decimal(&mut s, n);
    s
}

/// `prefix` followed by the decimal digits of `n`.
fn numbered_name(prefix: &str, n: usize) -> (s: String)
    ensures
        s@ == prefix@ + decimal(n as nat),
{
    let mut s = String::from_str(prefix);
    let digits = decimal_string(n);
    s.append(digits.as_str());
    s
}

/// Text of `t` followed by `suffix`.
fn suffixed_name(t: &String, suffix: &str) -> (s: String)
    ensures
        s@ == t@ + suffix@,
{
    let mut s = t.clone();
    s.append(suffix);
    s
}

/// A new, fully transparent, visible, opaque layer of the given size.
pub open spec fn is_blank_layer(l: Layer, w: u32, h: u32, content: LayerContent) -> bool {
    &&& l.fits(w, h)
    &&& forall|i: int| 0 <= i < l.pixels.data@.len() ==> l.pixels.data@[i] == 0
    &&& l.visible
    &&& l.opacity == 255
    &&& l.content == content
}

/// Index at which a new layer goes: just above the active layer.
pub open spec fn insert_index(state: CanvasState) -> int {
    if state.active_layer_index + 1 <= state.layers@.len() {
        state.active_layer_index + 1
    } else {
        state.layers@.len() as int
    }
}

/// `new` is `old` with a blank layer holding `content` inserted just above the active layer,
/// which becomes the active one; everything else is kept and the canvas is marked for redraw.
pub open spec fn layer_added(old: CanvasState, new: CanvasState, content: LayerContent) -> bool {
    let idx = insert_index(old);
    &&& new.width == old.width
    &&& new.height == old.height
    &&& new.selection_mask == old.selection_mask
    &&& new.dirty
    &&& new.active_layer_index == idx
    &&& new.layers@.len() == old.layers@.len() + 1
    &&& forall|i: int| 0 <= i < idx ==> new.layers@[i] == old.layers@[i]
    &&& forall|i: int| idx < i < new.layers@.len() ==> new.layers@[i] == old.layers@[i - 1]
    &&& is_blank_layer(new.layers@[idx], old.width, old.height, content)
}

/// `new` is `old` without its active layer; the active index stays, or moves to the new top
/// layer when it would be past the end; the canvas is marked for redraw.
pub open spec fn active_deleted(old: CanvasState, new: CanvasState) -> bool {
    let idx = old.active_layer_index as int;
    &&& new.layers@ == old.layers@.remove(idx)
    &&& new.active_layer_index == (if idx >= new.layers@.len() { new.layers@.len() - 1 } else { idx })
    &&& new.width == old.width
    &&& new.height == old.height
    &&& new.selection_mask == old.selection_mask
    &&& new.dirty
}

fn add_blank_layer(state: &mut CanvasState, history: &mut HistoryManager, name: String, content: LayerContent)
    requires
        old(state).wf(),
    ensures
        final(state).wf(),
        layer_added(*old(state), *final(state), content),
        final(state).layers@[insert_index(*old(state))].name@ == name@,
        final(history).entries@.len() == old(history).entries@.len() + 1,
        forall|i: int| 0 <= i < old(history).entries@.len() ==> final(history).entries@[i] == old(history).entries@[i],
        match final(history).entries@.last() {
            LayerOperation::Add { index, name: n, width, height } =>
                index == insert_index(*old(state)) && n@ == name@ && width == old(state).width && height == old(state).height,
            _ => false,
        },
{
    let len = state.layers.len();
    let idx = if state.active_layer_index + 1 <= len { state.active_layer_index + 1 } else { len };
    let pixels = RgbaImage::new(state.width, state.height);
    let recorded = name.clone();
    let layer = Layer { name, pixels, visible: true, opacity: 255, content };
    state.layers.insert(idx, layer);
    state.active_layer_index = idx;
    history.push(LayerOperation::Add { index: idx, name: recorded, width: state.width, height: state.height });
    state.dirty = true;
    proof {
        assert forall|i: int| 0 <= i < state.layers@.len() implies #[trigger] state.layers@[i].fits(state.width, state.height) by {
            if i < idx {
                assert(state.layers@[i] == old(state).layers@[i]);
            } else if i > idx {
                assert(state.layers@[i] == old(state).layers@[i - 1]);
            }
        }
    }
}

/// Add a transparent layer named "Layer N" (N = layer count after adding) just above the
/// active layer, make it active, and record the addition in `history`.
pub fn add_layer(state: &mut CanvasState, history: &mut HistoryManager)
    requires
        old(state).wf(),
        old(state).layers@.len() < usize::MAX,
    ensures
        final(state).wf(),
        layer_added(*old(state), *final(state), LayerContent::Raster),
        final(state).layers@[insert_index(*old(state))].name@ == "Layer "@ + decimal(old(state).layers@.len() + 1),
        final(history).entries@.len() == old(history).entries@.len() + 1,
        forall|i: int| 0 <= i < old(history).entries@.len() ==> final(history).entries@[i] == old(history).entries@[i],
        match final(history).entries@.last() {
            LayerOperation::Add { index, name, width, height } =>
                index == insert_index(*old(state)) && name@ == "Layer "@ + decimal(old(state).layers@.len() + 1)
                    && width == old(state).width && height == old(state).height,
            _ => false,
        },
{
    let name = numbered_name("Layer ", state.layers.len() + 1);
    add_blank_layer(state, history, name, LayerContent::Raster);
}

/// Add an empty text layer named "Text Layer N" just above the active layer, make it
/// active, and record the addition in `history`.
pub fn add_text_layer(state: &mut CanvasState, history: &mut HistoryManager)
    requires
        old(state).wf(),
        old(state).layers@.len() < usize::MAX,
    ensures
        final(state).wf(),
        layer_added(*old(state), *final(state), LayerContent::Text),
        final(state).layers@[insert_index(*old(state))].name@ == "Text Layer "@ + decimal(old(state).layers@.len() + 1),
        final(history).entries@.len() == old(history).entries@.len() + 1,
        forall|i: int| 0 <= i < old(history).entries@.len() ==> final(history).entries@[i] == old(history).entries@[i],
        match final(history).entries@.last() {
            LayerOperation::Add { index, name, width, height } =>
                index == insert_index(*old(state)) && name@ == "Text Layer "@ + decimal(old(state).layers@.len() + 1)
                    && width == old(state).width && height == old(state).height,
            _ => false,
        },
{
    let name = numbered_name("Text Layer ", state.layers.len() + 1);
    add_blank_layer(state, history, name, LayerContent::Text);
}

/// Delete the active layer unless it is the only one, record it in `history` (so that it
/// can be restored), and keep the active index in range.
pub fn delete_layer(state: &mut CanvasState, history: &mut HistoryManager)
    requires
        old(state).wf(),
    ensures
        final(state).wf(),
        old(state).layers@.len() <= 1 ==> *final(state) == *old(state) && *final(history) == *old(history),
        old(state).layers@.len() > 1 ==> {
            let idx = old(state).active_layer_index as int;
            let removed = old(state).layers@[idx];
            &&& active_deleted(*old(state), *final(state))
            &&& final(history).entries@ == old(history).entries@.push(LayerOperation::Delete {
                index: idx as usize,
                pixels: removed.pixels,
                name: removed.name,
                visible: removed.visible,
                opacity: removed.opacity,
                content: removed.content,
            })
        },
{
    if state.layers.len() <= 1 {
        return;
    }
    let idx = state.active_layer_index;
    let removed = state.layers.remove(idx);
    history.push(LayerOperation::Delete {
        index: idx,
        pixels: removed.pixels,
        name: removed.name,
        visible: removed.visible,
        opacity: removed.opacity,
        content: removed.content,
    });
    if state.active_layer_index >= state.layers.len() {
        state.active_layer_index = state.layers.len() - 1;
    }
    state.dirty = true;
    proof {
        assert forall|i: int| 0 <= i < state.layers@.len() implies #[trigger] state.layers@[i].fits(state.width, state.height) by {
            if i < idx {
                assert(state.layers@[i] == old(state).layers@[i]);
            } else {
                assert(state.layers@[i] == old(state).layers@[i + 1]);
            }
        }
    }
}

/// Copy of a layer's content tag.
fn copy_content(c: &LayerContent) -> (r: LayerContent)
    ensures
        r == *c,
{
    match c {
        LayerContent::Raster => LayerContent::Raster,
        LayerContent::Text => LayerContent::Text,
    }
}

/// The copy made by `duplicate_layer`: same pixels, visibility, opacity and content, name
/// with " Copy" appended.
pub open spec fn is_copy_of(d: Layer, src: Layer) -> bool {
    &&& d.name@ == src.name@ + " Copy"@
    &&& d.pixels.width == src.pixels.width
    &&& d.pixels.height == src.pixels.height
    &&& d.pixels.data@ == src.pixels.data@
    &&& d.visible == src.visible
    &&& d.opacity == src.opacity
    &&& d.content == src.content
}

/// `new` is `old` with a copy of the active layer inserted just above it, which becomes the
/// active one; everything else is kept and the canvas is marked for redraw.
pub open spec fn layer_duplicated(old: CanvasState, new: CanvasState) -> bool {
    let idx = old.active_layer_index as int;
    &&& new.width == old.width
    &&& new.height == old.height
    &&& new.selection_mask == old.selection_mask
    &&& new.dirty
    &&& new.layers@.len() == old.layers@.len() + 1
    &&& forall|i: int| 0 <= i <= idx ==> new.layers@[i] == old.layers@[i]
    &&& forall|i: int| idx + 1 < i < new.layers@.len() ==> new.layers@[i] == old.layers@[i - 1]
    &&& is_copy_of(new.layers@[idx + 1], old.layers@[idx])
    &&& new.active_layer_index == idx + 1
}

/// Insert a copy of the active layer just above it, make the copy active, and record the
/// duplication in `history`.
pub fn duplicate_layer(state: &mut CanvasState, history: &mut HistoryManager)
    requires
        old(state).wf(),
    ensures
        final(state).wf(),
        layer_duplicated(*old(state), *final(state)),
        ({
            let idx = old(state).active_layer_index as int;
            &&& final(history).entries@.len() == old(history).entries@.len() + 1
            &&& forall|i: int| 0 <= i < old(history).entries@.len() ==> final(history).entries@[i] == old(history).entries@[i]
            &&& match final(history).entries@.last() {
                LayerOperation::Duplicate { source_index, new_index, pixels, name, visible, opacity, content } => {
                    &&& source_index == idx
                    &&& new_index == idx + 1
                    &&& pixels.width == old(state).layers@[idx].pixels.width
                    &&& pixels.height == old(state).layers@[idx].pixels.height
                    &&& pixels.data@ == old(state).layers@[idx].pixels.data@
                    &&& name@ == old(state).layers@[idx].name@ + " Copy"@
                    &&& visible == old(state).layers@[idx].visible
                    &&& opacity == old(state).layers@[idx].opacity
                    &&& content == old(state).layers@[idx].content
                }
                _ => false,
            }
        }),
{
    let idx = state.active_layer_index;
    proof {
        assert(state.layers@[idx as int].fits(state.width, state.height));
    }
    let src = &state.layers[idx];
    let dup = Layer {
        name: suffixed_name(&src.name, " Copy"),
        pixels: src.pixels.duplicate(),
        visible: src.visible,
        opacity: src.opacity,
        content: copy_content(&src.content),
    };
    let rec_pixels = dup.pixels.duplicate();
    let rec_name = dup.name.clone();
    let rec_visible = dup.visible;
    let rec_opacity = dup.opacity;
    let rec_content = copy_content(&dup.content);
    proof {
        assert(state.layers.len() == state.layers@.len());
    }
    let new_idx = idx + 1;
    state.layers.insert(new_idx, dup);
    state.active_layer_index = new_idx;
    history.push(LayerOperation::Duplicate {
        source_index: idx,
        new_index: new_idx,
        pixels: rec_pixels,
        name: rec_name,
        visible: rec_visible,
        opacity: rec_opacity,
        content: rec_content,
    });
    state.dirty = true;
    proof {
        assert forall|i: int| 0 <= i < state.layers@.len() implies #[trigger] state.layers@[i].fits(state.width, state.height) by {
            if i <= idx {
                assert(state.layers@[i] == old(state).layers@[i]);
            } else if i > idx + 1 {
                assert(state.layers@[i] == old(state).layers@[i - 1]);
            }
        }
    }
}

/// Alpha of a bottom-layer pixel after applying mask value `luma`: `alpha * luma / 255`.
pub open spec fn masked_alpha(alpha: u8, luma: u8) -> u8 {
    ((alpha as int * luma as int) / 255) as u8
}

/// Channel `c` of pixel `(x, y)` of the bottom layer after `merge_down_as_mask`.
pub open spec fn merged_expected(bottom: RgbaImage, mask_luma: Seq<u8>, x: int, y: int, c: int) -> u8 {
    if c == 3 {
        masked_alpha(bottom.at(x, y, 3), mask_luma[y * bottom.width + x])
    } else {
        bottom.at(x, y, c)
    }
}

/// Use layer `layer_idx` as a luminance mask on the layer below it, then remove it.
///
/// `mask_luma` holds, row-major, the effective mask value of every canvas pixel of the
/// masking layer (transparent mask pixels count as white, opaque ones as their luminance).
/// Each bottom-layer alpha becomes `alpha * mask / 255`; colour channels are kept. Both
/// layers become raster layers (their pixels must already be up to date), the mask layer is
/// removed, and an active index at or above it moves down by one (never below 0). Nothing
/// changes when `layer_idx` is 0 or names no layer.
pub fn merge_down_as_mask(state: &mut CanvasState, layer_idx: usize, mask_luma: &Vec<u8>)
    requires
        old(state).wf(),
        0 < layer_idx < old(state).layers@.len() ==> mask_luma@.len() == old(state).width as int * old(state).height as int,
    ensures
        final(state).wf(),
        layer_idx == 0 || layer_idx >= old(state).layers@.len() ==> *final(state) == *old(state),
        0 < layer_idx < old(state).layers@.len() ==> {
            let below = old(state).layers@[layer_idx - 1];
            let merged = final(state).layers@[layer_idx - 1];
            &&& final(state).layers@.len() == old(state).layers@.len() - 1
            &&& forall|i: int| 0 <= i < layer_idx - 1 ==> final(state).layers@[i] == old(state).layers@[i]
            &&& forall|i: int| layer_idx <= i < final(state).layers@.len() ==> final(state).layers@[i] == old(state).layers@[i + 1]
            &&& merged.name == below.name
            &&& merged.visible == below.visible
            &&& merged.opacity == below.opacity
            &&& merged.content == LayerContent::Raster
            &&& crate::effects::image_is(merged.pixels, below.pixels, |x: int, y: int, c: int| merged_expected(below.pixels, mask_luma@, x, y, c))
            &&& final(state).active_layer_index == (if old(state).active_layer_index >= layer_idx && old(state).active_layer_index > 0 {
                old(state).active_layer_index - 1
            } else {
                old(state).active_layer_index as int
            })
            &&& final(state).width == old(state).width
            &&& final(state).height == old(state).height
            &&& final(state).selection_mask == old(state).selection_mask
            &&& final(state).dirty
        },
{
    if layer_idx == 0 || layer_idx >= state.layers.len() {
        return;
    }
    let w = state.width;
    let h = state.height;
    let wu = w as usize;
    let hu = h as usize;
    let ghost wi = w as int;
    let ghost old_layers = state.layers@;
    proof {
        assert(old_layers[layer_idx - 1].fits(w, h));
    }
    let mut bottom = state.layers.remove(layer_idx - 1);
    let ghost below = bottom;
    let ghost f = |x: int, y: int, c: int| merged_expected(below.pixels, mask_luma@, x, y, c);
    let ml = mask_luma.len();
    let mut out: Vec<u8> = Vec::new();
    let mut y: usize = 0;
    while y < hu
        invariant
            below.fits(w, h), bottom == below, wu == w, hu == h, wi == w as int,
            mask_luma@.len() == wi * h, ml == mask_luma@.len(),
            f == (|x: int, y: int, c: int| merged_expected(below.pixels, mask_luma@, x, y, c)),
            y <= hu,
            out@.len() == (y * wi) * 4,
            prefix_matches(out@, wi, y * wi, f),
        decreases hu - y,
    {
        let mut x: usize = 0;
        while x < wu
            invariant
                below.fits(w, h), bottom == below, wu == w, hu == h, wi == w as int,
                mask_luma@.len() == wi * h, ml == mask_luma@.len(), ml == mask_luma@.len(),
                f == (|x: int, y: int, c: int| merged_expected(below.pixels, mask_luma@, x, y, c)),
                y < hu,
                x <= wu,
                out@.len() == (y * wi + x) * 4,
                prefix_matches(out@, wi, y * wi + x, f),
            decreases wu - x,
        {
            let (c0, c1, c2, c3) = get_px(&bottom.pixels, x, y);
            proof {
                assert(y * wu + x < wu * hu) by (nonlinear_arith)
                    requires x < wu, y < hu;
                assert(y * wu <= y * wu + x) by (nonlinear_arith)
                    requires x >= 0, y >= 0, wu >= 0;
            }
            let luma = mask_luma[y * wu + x];
            proof {
                assert((c3 as int * luma as int) / 255 <= 255) by (nonlinear_arith)
                    requires c3 <= 255, luma <= 255;
            }
            let a = ((c3 as u32 * luma as u32) / 255) as u8;
            push_pixel(&mut out, c0, c1, c2, a, Ghost(wi), Ghost(x as int), Ghost(y as int), Ghost(f));
            x += 1;
        }
        proof {
            lemma_row_step(wi, y as int);
        }
        y += 1;
    }
    proof {
        lemma_prefix_complete(out@, wi, h as int, f);
    }
    bottom.pixels = RgbaImage { width: w, height: h, data: out };
    bottom.content = LayerContent::Raster;
    // The mask layer now sits at `layer_idx - 1`.
    let _mask_layer = state.layers.remove(layer_idx - 1);
    state.layers.insert(layer_idx - 1, bottom);
    if state.active_layer_index >= layer_idx && state.active_layer_index > 0 {
        state.active_layer_index = state.active_layer_index - 1;
    }
    state.dirty = true;
    proof {
        assert forall|i: int| 0 <= i < state.layers@.len() implies #[trigger] state.layers@[i].fits(state.width, state.height) by {
            if i < layer_idx - 1 {
                assert(state.layers@[i] == old_layers[i]);
            } else if i >= layer_idx {
                assert(state.layers@[i] == old_layers[i + 1]);
            }
        }
    }
}

/// Deleting the layer that was just added (by `add_layer` or `add_text_layer`) gives back
/// the layer stack, and the canvas size and selection, as they were.
pub proof fn lemma_delete_after_add(s0: CanvasState, s1: CanvasState, s2: CanvasState, content: LayerContent)
    requires
        s0.layers@.len() >= 1,
        s0.active_layer_index < s0.layers@.len(),
        layer_added(s0, s1, content),
        active_deleted(s1, s2),
    ensures
        s2.layers@ == s0.layers@,
        s2.width == s0.width,
        s2.height == s0.height,
        s2.selection_mask == s0.selection_mask,
{
    let idx = insert_index(s0);
    assert(s1.layers@.remove(idx) =~= s0.layers@);
}

/// Deleting the copy that was just made gives back the layer stack, and the canvas size and
/// selection, as they were.
pub proof fn lemma_delete_after_duplicate(s0: CanvasState, s1: CanvasState, s2: CanvasState)
    requires
        s0.layers@.len() >= 1,
        s0.active_layer_index < s0.layers@.len(),
        layer_duplicated(s0, s1),
        active_deleted(s1, s2),
    ensures
        s2.layers@ == s0.layers@,
        s2.width == s0.width,
        s2.height == s0.height,
        s2.selection_mask == s0.selection_mask,
{
    let idx = s0.active_layer_index as int;
    assert(s1.layers@.remove(idx + 1) =~= s0.layers@);
}

} // verus!

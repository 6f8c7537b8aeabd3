//! The scripting host's own logic: canvas-wide operation requests, the names a script may
//! use for resize filters and anchors, and the error report shown to the user.
use vstd::prelude::*;
use crate::raster::RgbaImage;
use crate::transform::{Orientation, orient, oriented_data, pad_region, padded_data, anchor_offset, anchor_offset_exec, resize_rgba, resample_outcome, filter_reproducible, offset_safe};
use crate::canvas::CanvasState;

verus! {

/// Filter used when a script resizes the image.
#[derive(Clone, Copy, Debug, PartialEq, Eq, Structural)]
pub enum ScriptFilterType {
    Nearest,
    Bilinear,
    Bicubic,
    Lanczos,
}

/// A canvas-wide transform requested by a script, to be replayed on the other layers.
#[derive(Clone, Copy, Debug)]
pub enum CanvasOpRequest {
    FlipHorizontal,
    FlipVertical,
    Rotate90CW,
    Rotate90CCW,
    Rotate180,
    ResizeImage { w: u32, h: u32, filter: ScriptFilterType },
    ResizeCanvas { new_w: u32, new_h: u32, anchor: (u32, u32) },
}

/// Name for the result of `str::to_lowercase` on a character sequence.
pub uninterp spec fn lowercase_of(s: Seq<char>) -> Seq<char>;

/// `str::to_lowercase`: the string with every character replaced by its Unicode lowercase
/// mapping. The contract only names the result; it depends on the argument alone.
#[verifier::external_body]
fn to_lowercase(s: &str) -> (r: String)
    ensures
        r@ == lowercase_of(s@),
{
    s.to_lowercase()
}

/// Whether `s` spells exactly `word`.
fn spells(s: &String, word: &str) -> (r: bool)
    ensures
        r == (s@ == word@),
{
    let w = String::from_str(word);
    *s == w
}

/// The filter a (lowercase) name selects; unknown names select bilinear.
pub open spec fn filter_named(name: Seq<char>) -> ScriptFilterType {
    if name == "nearest"@ || name == "nn"@ {
        ScriptFilterType::Nearest
    } else if name == "bicubic"@ || name == "catmull"@ || name == "catmullrom"@ {
        ScriptFilterType::Bicubic
    } else if name == "lanczos"@ || name == "lanczos3"@ {
        ScriptFilterType::Lanczos
    } else {
        ScriptFilterType::Bilinear
    }
}

/// The filter selected by an already lowercased name.
pub fn filter_from_lowercase(name: &String) -> (f: ScriptFilterType)
    ensures
        f == filter_named(name@),
{
    if spells(name, "nearest") || spells(name, "nn") {
        ScriptFilterType::Nearest
    } else if spells(name, "bicubic") || spells(name, "catmull") || spells(name, "catmullrom") {
        ScriptFilterType::Bicubic
    } else if spells(name, "lanczos") || spells(name, "lanczos3") {
        ScriptFilterType::Lanczos
    } else {
        ScriptFilterType::Bilinear
    }
}

/// The resize filter a script names, ignoring case.
pub fn parse_script_filter(s: &str) -> (f: ScriptFilterType)
    ensures
        f == filter_named(lowercase_of(s@)),
{
    let lower = to_lowercase(s);
    filter_from_lowercase(&lower)
}

/// The anchor cell `(column, row)`, each in 0..=2, that a (lowercase) name selects;
/// unknown names select the top-left cell.
pub open spec fn anchor_named(name: Seq<char>) -> (u32, u32) {
    if name == "top-left"@ || name == "tl"@ || name == "nw"@ {
        (0, 0)
    } else if name == "top-center"@ || name == "tc"@ || name == "n"@ || name == "top"@ {
        (1, 0)
    } else if name == "top-right"@ || name == "tr"@ || name == "ne"@ {
        (2, 0)
    } else if name == "center-left"@ || name == "cl"@ || name == "w"@ || name == "left"@ {
        (0, 1)
    } else if name == "center"@ || name == "c"@ || name == "middle"@ {
        (1, 1)
    } else if name == "center-right"@ || name == "cr"@ || name == "e"@ || name == "right"@ {
        (2, 1)
    } else if name == "bottom-left"@ || name == "bl"@ || name == "sw"@ {
        (0, 2)
    } else if name == "bottom-center"@ || name == "bc"@ || name == "s"@ || name == "bottom"@ {
        (1, 2)
    } else if name == "bottom-right"@ || name == "br"@ || name == "se"@ {
        (2, 2)
    } else {
        (0, 0)
    }
}

/// The anchor cell selected by an already lowercased name.
pub fn anchor_from_lowercase(name: &String) -> (a: (u32, u32))
    ensures
        a == anchor_named(name@),
{
    if spells(name, "top-left") || spells(name, "tl") || spells(name, "nw") {
        (0, 0)
    } else if spells(name, "top-center") || spells(name, "tc") || spells(name, "n") || spells(name, "top") {
        (1, 0)
    } else if spells(name, "top-right") || spells(name, "tr") || spells(name, "ne") {
        (2, 0)
    } else if spells(name, "center-left") || spells(name, "cl") || spells(name, "w") || spells(name, "left") {
        (0, 1)
    } else if spells(name, "center") || spells(name, "c") || spells(name, "middle") {
        (1, 1)
    } else if spells(name, "center-right") || spells(name, "cr") || spells(name, "e") || spells(name, "right") {
        (2, 1)
    } else if spells(name, "bottom-left") || spells(name, "bl") || spells(name, "sw") {
        (0, 2)
    } else if spells(name, "bottom-center") || spells(name, "bc") || spells(name, "s") || spells(name, "bottom") {
        (1, 2)
    } else if spells(name, "bottom-right") || spells(name, "br") || spells(name, "se") {
        (2, 2)
    } else {
        (0, 0)
    }
}

/// The resize anchor a script names, ignoring case.
pub fn parse_anchor(s: &str) -> (a: (u32, u32))
    ensures
        a == anchor_named(lowercase_of(s@)),
{
    let lower = to_lowercase(s);
    anchor_from_lowercase(&lower)
}


/// Clamp a script integer to a channel value.
pub open spec fn clamp_byte(v: i64) -> u8 {
    if v < 0 { 0 } else if v > 255 { 255 } else { v as u8 }
}

/// Exec form of `clamp_byte`.
pub fn clamp_byte_exec(v: i64) -> (r: u8)
    ensures
        r == clamp_byte(v),
{
    if v < 0 { 0 } else if v > 255 { 255 } else { v as u8 }
}

/// One step of the xorshift64 generator.
pub open spec fn xorshift(s: u64) -> u64 {
    let a = s ^ (s << 13u64);
    let b = a ^ (a >> 7u64);
    b ^ (b << 17u64)
}

/// `(x, y)` lies on a `w` by `h` canvas.
pub open spec fn on_canvas(x: i64, y: i64, w: u32, h: u32) -> bool {
    0 <= x < w && 0 <= y < h
}

/// Byte offset of pixel `(x, y)` in a row-major RGBA buffer of width `w`.
pub open spec fn pixel_base(w: u32, x: int, y: int) -> int {
    (y * w + x) * 4
}

/// A script coordinate clamped to `0..=limit` the way the host does it (negative values
/// become 0, the rest is taken modulo 2^32, then capped at `limit`).
pub open spec fn clamp_coord(v: i64, limit: u32) -> u32 {
    let c = (if v < 0 { 0 } else { v }) as u32;
    if c < limit { c } else { limit }
}

/// A requested image dimension clamped to `1..=32768`.
pub open spec fn clamp_dim(v: i64) -> u32 {
    let c = (if v < 1 { 1 } else { v }) as u32;
    if c < 32768 { c } else { 32768 }
}

/// The pixel buffer, size, selection and generator state that a running script works on.
pub struct ScriptContext {
    /// Working pixels, RGBA row-major.
    pub pixels: Vec<u8>,
    pub width: u32,
    pub height: u32,
    /// Selection, one byte per pixel (0 = unselected); `None` selects everything.
    pub mask: Option<Vec<u8>>,
    /// State of the xorshift64 generator.
    pub rng_state: u64,
    /// Canvas-wide transforms to replay on the other layers.
    pub canvas_ops: Vec<CanvasOpRequest>,
}

impl ScriptContext {
    /// Sizes for which the host's 32-bit index arithmetic cannot overflow.
    pub open spec fn wf(&self) -> bool {
        &&& self.width as int * self.height as int <= 0x4000_0000
        &&& self.width <= 0x7fff_ffff
        &&& self.height <= 0x7fff_ffff
    }

    /// Whether `(x, y)` is selected: off-canvas points never are; with no selection every
    /// on-canvas point is; otherwise the mask byte must exist and be non-zero.
    pub open spec fn selected_at(&self, x: i64, y: i64) -> bool {
        on_canvas(x, y, self.width, self.height) && match self.mask {
            None => true,
            Some(m) => {
                let idx = y * self.width + x;
                idx < m@.len() && m@[idx] > 0
            },
        }
    }

    /// Offset of the first byte of on-canvas pixel `(x, y)`.
    fn base_of(&self, x: i64, y: i64) -> (b: usize)
        requires
            self.wf(),
            on_canvas(x, y, self.width, self.height),
        ensures
            b == pixel_base(self.width, x as int, y as int),
            b + 4 <= 4 * 0x4000_0000,
    {
        let w = self.width as usize;
        proof {
            assert(y * w + x < w * self.height) by (nonlinear_arith)
                requires 0 <= x < w, 0 <= y < self.height;
            assert(0 <= y * w) by (nonlinear_arith)
                requires 0 <= y, 0 <= w;
        }
        ((y as usize) * w + (x as usize)) * 4
    }

    /// `is_selected(x, y)`.
    pub fn is_selected(&self, x: i64, y: i64) -> (r: bool)
        requires
            self.wf(),
        ensures
            r == self.selected_at(x, y),
    {
        if x < 0 || y < 0 || x >= self.width as i64 || y >= self.height as i64 {
            return false;
        }
        match &self.mask {
            Some(m) => {
                let idx = self.base_of(x, y) / 4;
                idx < m.len() && m[idx] > 0
            },
            None => true,
        }
    }

    /// Channel `k` of pixel `(x, y)` as `get_pixel` reports it: 0 off the canvas or when the
    /// buffer does not hold the whole pixel.
    pub open spec fn pixel_channel(&self, x: i64, y: i64, k: int) -> i64 {
        let b = pixel_base(self.width, x as int, y as int);
        if on_canvas(x, y, self.width, self.height) && b + 3 < self.pixels@.len() {
            self.pixels@[b + k] as i64
        } else {
            0
        }
    }

    /// `get_pixel(x, y)`: the four channels of a pixel.
    pub fn get_pixel(&self, x: i64, y: i64) -> (r: [i64; 4])
        requires
            self.wf(),
        ensures
            forall|k: int| 0 <= k < 4 ==> r@[k] == self.pixel_channel(x, y, k),
    {
        if x < 0 || y < 0 || x >= self.width as i64 || y >= self.height as i64 {
            return [0, 0, 0, 0];
        }
        let b = self.base_of(x, y);
        if b + 3 < self.pixels.len() {
            [self.pixels[b] as i64, self.pixels[b + 1] as i64, self.pixels[b + 2] as i64, self.pixels[b + 3] as i64]
        } else {
            [0, 0, 0, 0]
        }
    }

    /// Channel `k` as `get_r` / `get_g` / `get_b` / `get_a` report it: 0 off the canvas or
    /// when the buffer does not reach that byte.
    pub open spec fn single_channel(&self, x: i64, y: i64, k: int) -> i64 {
        let i = pixel_base(self.width, x as int, y as int) + k;
        if on_canvas(x, y, self.width, self.height) && i < self.pixels@.len() {
            self.pixels@[i] as i64
        } else {
            0
        }
    }

    /// `get_r` / `get_g` / `get_b` / `get_a` for `k` = 0, 1, 2, 3.
    pub fn get_channel(&self, x: i64, y: i64, k: usize) -> (r: i64)
        requires
            self.wf(),
            k < 4,
        ensures
            r == self.single_channel(x, y, k as int),
    {
        if x < 0 || y < 0 || x >= self.width as i64 || y >= self.height as i64 {
            return 0;
        }
        let i = self.base_of(x, y) + k;
        if i < self.pixels.len() {
            self.pixels[i] as i64
        } else {
            0
        }
    }

    /// `set_pixel(x, y, r, g, b, a)`: write the clamped channels of an on-canvas pixel whose
    /// four bytes are all in the buffer; otherwise nothing changes.
    pub fn set_pixel(&mut self, x: i64, y: i64, r: i64, g: i64, b: i64, a: i64)
        requires
            old(self).wf(),
        ensures
            ({
                let base = pixel_base(old(self).width, x as int, y as int);
                if on_canvas(x, y, old(self).width, old(self).height) && base + 3 < old(self).pixels@.len() {
                    final(self).pixels@ == old(self).pixels@.update(base, clamp_byte(r)).update(base + 1, clamp_byte(g))
                        .update(base + 2, clamp_byte(b)).update(base + 3, clamp_byte(a))
                } else {
                    final(self).pixels@ == old(self).pixels@
                }
            }),
            final(self).width == old(self).width,
            final(self).height == old(self).height,
            final(self).mask == old(self).mask,
            final(self).rng_state == old(self).rng_state,
            final(self).canvas_ops@ == old(self).canvas_ops@,
    {
        if x < 0 || y < 0 || x >= self.width as i64 || y >= self.height as i64 {
            return;
        }
        let base = self.base_of(x, y);
        if base + 3 < self.pixels.len() {
            self.pixels.set(base, clamp_byte_exec(r));
            self.pixels.set(base + 1, clamp_byte_exec(g));
            self.pixels.set(base + 2, clamp_byte_exec(b));
            self.pixels.set(base + 3, clamp_byte_exec(a));
        }
    }

    /// `set_r` / `set_g` / `set_b` / `set_a` for `k` = 0, 1, 2, 3: write one clamped channel
    /// when it lies in the buffer.
    pub fn set_channel(&mut self, x: i64, y: i64, k: usize, v: i64)
        requires
            old(self).wf(),
            k < 4,
        ensures
            ({
                let i = pixel_base(old(self).width, x as int, y as int) + k;
                if on_canvas(x, y, old(self).width, old(self).height) && i < old(self).pixels@.len() {
                    final(self).pixels@ == old(self).pixels@.update(i, clamp_byte(v))
                } else {
                    final(self).pixels@ == old(self).pixels@
                }
            }),
            final(self).width == old(self).width,
            final(self).height == old(self).height,
            final(self).mask == old(self).mask,
            final(self).rng_state == old(self).rng_state,
            final(self).canvas_ops@ == old(self).canvas_ops@,
    {
        if x < 0 || y < 0 || x >= self.width as i64 || y >= self.height as i64 {
            return;
        }
        let i = self.base_of(x, y) + k;
        if i < self.pixels.len() {
            self.pixels.set(i, clamp_byte_exec(v));
        }
    }
}


/// `new` is `old` with channels `0..3` of every whole pixel replaced by `f(pixel, channel)`;
/// alpha and any trailing partial pixel are kept.
pub open spec fn colour_mapped(old: Seq<u8>, new: Seq<u8>, f: spec_fn(int, int) -> u8) -> bool {
    &&& new.len() == old.len()
    &&& forall|p: int, c: int| 0 <= p && 0 <= c < 4 && 4 * p + 3 < old.len() ==>
        #[trigger] new[4 * p + c] == (if c < 3 { f(p, c) } else { old[4 * p + c] })
    &&& forall|k: int| (old.len() / 4) * 4 <= k < old.len() ==> #[trigger] new[k] == old[k]
}

/// Grey level of an RGB triple with integer luma weights 299, 587 and 114 (per mille).
pub open spec fn luma(r: u8, g: u8, b: u8) -> u8 {
    ((r as int * 299 + g as int * 587 + b as int * 114) / 1000) as u8
}

/// Exec form of `luma`.
fn luma_exec(r: u8, g: u8, b: u8) -> (v: u8)
    ensures
        v == luma(r, g, b),
{
    ((r as u32 * 299 + g as u32 * 587 + b as u32 * 114) / 1000) as u8
}

/// Pixel `p` of a selection: none selects everything, otherwise its mask byte is non-zero.
pub open spec fn mask_selects_pixel(mask: Option<Vec<u8>>, p: int) -> bool {
    match mask {
        None => true,
        Some(m) => m@[p] > 0,
    }
}

/// `new` is `old` with every whole pixel below `n` for which `sel` holds set to `color`.
pub open spec fn pixels_filled(old: Seq<u8>, new: Seq<u8>, n: int, sel: spec_fn(int) -> bool, color: Seq<u8>) -> bool {
    &&& new.len() == old.len()
    &&& forall|p: int, c: int| 0 <= p && 0 <= c < 4 && 4 * p + 3 < old.len() ==>
        #[trigger] new[4 * p + c] == (if p < n && sel(p) { color[c] } else { old[4 * p + c] })
    &&& forall|k: int| (old.len() / 4) * 4 <= k < old.len() ==> #[trigger] new[k] == old[k]
}

/// The pixel count `w * h` of a well-formed context.
fn pixel_count(w: u32, h: u32) -> (n: usize)
    requires
        w as int * h as int <= 0x4000_0000,
    ensures
        n == w as int * h as int,
{
    (w as usize) * (h as usize)
}

/// A byte offset below `(len / 4) * 4` lies in a whole pixel.
proof fn lemma_whole_pixel(len: int, k: int)
    requires
        0 <= k < (len / 4) * 4,
        0 <= len,
    ensures
        0 <= k / 4,
        4 * (k / 4) + 3 < len,
        k == 4 * (k / 4) + k % 4,
        0 <= k % 4 < 4,
{
    assert(k == 4 * (k / 4) + k % 4 && 0 <= k % 4 < 4 && 0 <= k / 4) by (nonlinear_arith)
        requires 0 <= k;
    assert(k / 4 < len / 4) by (nonlinear_arith)
        requires 0 <= k < (len / 4) * 4;
    assert(4 * (k / 4) + 3 < len) by (nonlinear_arith)
        requires k / 4 < len / 4, 0 <= len;
}

impl ScriptContext {
    /// The canvas-size-independent part of the context is unchanged.
    pub open spec fn keeps_state(&self, other: &ScriptContext) -> bool {
        &&& self.width == other.width
        &&& self.height == other.height
        &&& self.mask == other.mask
        &&& self.rng_state == other.rng_state
        &&& self.canvas_ops@ == other.canvas_ops@
    }

    /// `apply_invert()`: replace each colour channel `v` of every whole pixel by `255 - v`.
    pub fn invert(&mut self)
        ensures
            colour_mapped(old(self).pixels@, final(self).pixels@, |p: int, c: int| (255 - old(self).pixels@[4 * p + c]) as u8),
            final(self).keeps_state(old(self)),
    {
        let ghost orig = self.pixels@;
        let len = self.pixels.len();
        let mut i: usize = 0;
        while i + 3 < len
            invariant
                len == orig.len(),
                self.pixels@.len() == len,
                i % 4 == 0,
                i <= len,
                self.keeps_state(old(self)),
                orig == old(self).pixels@,
                forall|p: int, c: int| 0 <= p && 0 <= c < 4 && 4 * p < i ==>
                    #[trigger] self.pixels@[4 * p + c] == (if c < 3 { (255 - orig[4 * p + c]) as u8 } else { orig[4 * p + c] }),
                forall|k: int| i <= k < len ==> #[trigger] self.pixels@[k] == orig[k],
            decreases len - i,
        {
            let r = self.pixels[i];
            let g = self.pixels[i + 1];
            let b = self.pixels[i + 2];
            self.pixels.set(i, 255 - r);
            self.pixels.set(i + 1, 255 - g);
            self.pixels.set(i + 2, 255 - b);
            i += 4;
        }
        proof {
            assert forall|k: int| (len as int / 4) * 4 <= k < len implies #[trigger] self.pixels@[k] == orig[k] by {
                assert(i + 3 >= len);
                assert((len as int / 4) * 4 >= i) by (nonlinear_arith)
                    requires i % 4 == 0, i + 3 >= len, i <= len;
            }
            assert forall|p: int, c: int| 0 <= p && 0 <= c < 4 && 4 * p + 3 < len implies
                #[trigger] self.pixels@[4 * p + c] == (if c < 3 { (255 - orig[4 * p + c]) as u8 } else { orig[4 * p + c] }) by {
                assert(4 * p < i) by (nonlinear_arith)
                    requires i % 4 == 0, i + 3 >= len, 4 * p + 3 < len;
            }
        }
    }

    /// `apply_desaturate()`: set the colour channels of every whole pixel to its luma.
    pub fn desaturate(&mut self)
        ensures
            colour_mapped(old(self).pixels@, final(self).pixels@,
                |p: int, c: int| luma(old(self).pixels@[4 * p], old(self).pixels@[4 * p + 1], old(self).pixels@[4 * p + 2])),
            final(self).keeps_state(old(self)),
    {
        let ghost orig = self.pixels@;
        let len = self.pixels.len();
        let mut i: usize = 0;
        while i + 3 < len
            invariant
                len == orig.len(),
                self.pixels@.len() == len,
                i % 4 == 0,
                i <= len,
                self.keeps_state(old(self)),
                orig == old(self).pixels@,
                forall|p: int, c: int| 0 <= p && 0 <= c < 4 && 4 * p < i ==>
                    #[trigger] self.pixels@[4 * p + c] == (if c < 3 { luma(orig[4 * p], orig[4 * p + 1], orig[4 * p + 2]) } else { orig[4 * p + c] }),
                forall|k: int| i <= k < len ==> #[trigger] self.pixels@[k] == orig[k],
            decreases len - i,
        {
            let gray = luma_exec(self.pixels[i], self.pixels[i + 1], self.pixels[i + 2]);
            self.pixels.set(i, gray);
            self.pixels.set(i + 1, gray);
            self.pixels.set(i + 2, gray);
            i += 4;
        }
        proof {
            assert forall|k: int| (len as int / 4) * 4 <= k < len implies #[trigger] self.pixels@[k] == orig[k] by {
                assert((len as int / 4) * 4 >= i) by (nonlinear_arith)
                    requires i % 4 == 0, i + 3 >= len, i <= len;
            }
            assert forall|p: int, c: int| 0 <= p && 0 <= c < 4 && 4 * p + 3 < len implies
                #[trigger] self.pixels@[4 * p + c] == (if c < 3 { luma(orig[4 * p], orig[4 * p + 1], orig[4 * p + 2]) } else { orig[4 * p + c] }) by {
                assert(4 * p < i) by (nonlinear_arith)
                    requires i % 4 == 0, i + 3 >= len, 4 * p + 3 < len;
            }
        }
    }

    /// `select_rect(x1, y1, x2, y2)`: replace the selection by the rectangle
    /// `[x1, x2) x [y1, y2)`, each bound clamped to the canvas.
    pub fn select_rect(&mut self, x1: i64, y1: i64, x2: i64, y2: i64)
        requires
            old(self).wf(),
        ensures
            final(self).pixels@ == old(self).pixels@,
            final(self).width == old(self).width,
            final(self).height == old(self).height,
            final(self).rng_state == old(self).rng_state,
            final(self).canvas_ops@ == old(self).canvas_ops@,
            ({
                let w = old(self).width as int;
                let h = old(self).height as int;
                &&& final(self).mask is Some
                &&& final(self).mask->0@.len() == w * h
                &&& forall|x: int, y: int| 0 <= x < w && 0 <= y < h ==> #[trigger] final(self).mask->0@[y * w + x] == (
                    if clamp_coord(x1, old(self).width) <= x < clamp_coord(x2, old(self).width)
                        && clamp_coord(y1, old(self).height) <= y < clamp_coord(y2, old(self).height) { 255u8 } else { 0u8 })
            }),
    {
        let w = self.width;
        let h = self.height;
        let min_x = if x1 < 0 { 0u32 } else { x1 as u32 };
        let min_x = if min_x < w { min_x } else { w };
        let min_y = if y1 < 0 { 0u32 } else { y1 as u32 };
        let min_y = if min_y < h { min_y } else { h };
        let max_x = if x2 < 0 { 0u32 } else { x2 as u32 };
        let max_x = if max_x < w { max_x } else { w };
        let max_y = if y2 < 0 { 0u32 } else { y2 as u32 };
        let max_y = if max_y < h { max_y } else { h };
        let ghost wi = w as int;
        let mut mask: Vec<u8> = Vec::new();
        let mut y: u32 = 0;
        while y < h
            invariant
                wi == w as int,
                y <= h,
                mask@.len() == y * wi,
                forall|xx: int, yy: int| 0 <= xx < wi && 0 <= yy < y ==> #[trigger] mask@[yy * wi + xx] == (
                    if min_x <= xx < max_x && min_y <= yy < max_y { 255u8 } else { 0u8 }),
            decreases h - y,
        {
            let mut x: u32 = 0;
            while x < w
                invariant
                    wi == w as int,
                    y < h,
                    x <= w,
                    mask@.len() == y * wi + x,
                    forall|xx: int, yy: int| 0 <= xx < wi && 0 <= yy <= y && yy * wi + xx < y * wi + x ==> #[trigger] mask@[yy * wi + xx] == (
                        if min_x <= xx < max_x && min_y <= yy < max_y { 255u8 } else { 0u8 }),
                decreases w - x,
            {
                let v: u8 = if min_x <= x && x < max_x && min_y <= y && y < max_y { 255 } else { 0 };
                mask.push(v);
                proof {
                    assert forall|xx: int, yy: int| 0 <= xx < wi && 0 <= yy <= y && yy * wi + xx < y * wi + x + 1 implies #[trigger] mask@[yy * wi + xx] == (
                        if min_x <= xx < max_x && min_y <= yy < max_y { 255u8 } else { 0u8 }) by {
                        crate::raster::lemma_linear_pos_unique(wi, xx, yy, x as int, y as int);
                    }
                }
                x += 1;
            }
            proof {
                crate::raster::lemma_row_step(wi, y as int);
                assert forall|xx: int, yy: int| 0 <= xx < wi && 0 <= yy < y + 1 implies #[trigger] mask@[yy * wi + xx] == (
                    if min_x <= xx < max_x && min_y <= yy < max_y { 255u8 } else { 0u8 }) by {
                    assert(yy * wi + xx < y * wi + wi) by (nonlinear_arith)
                        requires 0 <= xx < wi, 0 <= yy < y + 1;
                }
            }
            y += 1;
        }
        proof {
            assert(h * wi == wi * h) by (nonlinear_arith);
        }
        self.mask = Some(mask);
    }

    /// `clear_selection()`: select everything.
    pub fn clear_selection(&mut self)
        ensures
            final(self).mask is None,
            final(self).pixels@ == old(self).pixels@,
            final(self).width == old(self).width,
            final(self).height == old(self).height,
            final(self).rng_state == old(self).rng_state,
            final(self).canvas_ops@ == old(self).canvas_ops@,
    {
        self.mask = None;
    }

    /// `has_selection()`.
    pub fn has_selection(&self) -> (r: bool)
        ensures
            r == (self.mask is Some),
    {
        self.mask.is_some()
    }

    /// `invert_selection()`: flip every mask byte `v` to `255 - v`; with no selection, the
    /// result selects nothing (an all-zero mask of `width * height` bytes).
    pub fn invert_selection(&mut self)
        requires
            old(self).wf(),
        ensures
            final(self).pixels@ == old(self).pixels@,
            final(self).width == old(self).width,
            final(self).height == old(self).height,
            final(self).rng_state == old(self).rng_state,
            final(self).canvas_ops@ == old(self).canvas_ops@,
            final(self).mask is Some,
            match old(self).mask {
                None => final(self).mask->0@ == Seq::new((old(self).width as int * old(self).height as int) as nat, |i: int| 0u8),
                Some(m) => final(self).mask->0@ == Seq::new(m@.len(), |i: int| (255 - m@[i]) as u8),
            },
    {
        let taken = self.mask.take();
        match taken {
            Some(mut m) => {
                let ghost orig = m@;
                let n = m.len();
                let mut i: usize = 0;
                while i < n
                    invariant
                        n == orig.len(),
                        m@.len() == n,
                        i <= n,
                        forall|k: int| 0 <= k < i ==> #[trigger] m@[k] == (255 - orig[k]) as u8,
                        forall|k: int| i <= k < n ==> #[trigger] m@[k] == orig[k],
                    decreases n - i,
                {
                    let v = m[i];
                    m.set(i, 255 - v);
                    i += 1;
                }
                proof {
                    assert(m@ =~= Seq::new(orig.len(), |i: int| (255 - orig[i]) as u8));
                }
                self.mask = Some(m);
            },
            None => {
                let n = pixel_count(self.width, self.height);
                let mut m: Vec<u8> = Vec::new();
                while m.len() < n
                    invariant
                        m@.len() <= n,
                        forall|k: int| 0 <= k < m@.len() ==> m@[k] == 0,
                    decreases n - m@.len(),
                {
                    m.push(0);
                }
                proof {
                    assert(m@ =~= Seq::new(n as nat, |i: int| 0u8));
                }
                self.mask = Some(m);
            },
        }
    }

    /// Paint every whole selected pixel below `width * height` with `color`.
    fn paint_selected(&mut self, color: [u8; 4])
        requires
            old(self).wf(),
            old(self).mask matches Some(m) ==> m@.len() >= old(self).width as int * old(self).height as int,
        ensures
            pixels_filled(old(self).pixels@, final(self).pixels@, old(self).width as int * old(self).height as int,
                |p: int| mask_selects_pixel(old(self).mask, p), color@),
            final(self).keeps_state(old(self)),
    {
        let ghost orig = self.pixels@;
        let ghost sel = |p: int| mask_selects_pixel(old(self).mask, p);
        let n = pixel_count(self.width, self.height);
        let len = self.pixels.len();
        let mut p: usize = 0;
        while p < n
            invariant
                n == old(self).width as int * old(self).height as int,
                n <= 0x4000_0000,
                len == orig.len(),
                orig == old(self).pixels@,
                self.pixels@.len() == len,
                self.keeps_state(old(self)),
                sel == (|p: int| mask_selects_pixel(old(self).mask, p)),
                old(self).mask matches Some(m) ==> m@.len() >= n,
                p <= n,
                forall|q: int, c: int| 0 <= q < p && 0 <= c < 4 && 4 * q + 3 < len ==>
                    #[trigger] self.pixels@[4 * q + c] == (if sel(q) { color@[c] } else { orig[4 * q + c] }),
                forall|k: int| 0 <= k < len && (k < 4 * p || k >= 4 * p && k / 4 >= p) && !(k < 4 * p && 4 * (k / 4) + 3 < len) ==> #[trigger] self.pixels@[k] == orig[k],
            decreases n - p,
        {
            let selected = match &self.mask {
                None => true,
                Some(m) => m[p] > 0,
            };
            let pi = p * 4;
            if selected && pi + 3 < len {
                self.pixels.set(pi, color[0]);
                self.pixels.set(pi + 1, color[1]);
                self.pixels.set(pi + 2, color[2]);
                self.pixels.set(pi + 3, color[3]);
            }
            proof {
                assert forall|k: int| 0 <= k < len && (k < 4 * (p + 1) || k >= 4 * (p + 1) && k / 4 >= p + 1) && !(k < 4 * (p + 1) && 4 * (k / 4) + 3 < len)
                    implies #[trigger] self.pixels@[k] == orig[k] by {
                    assert(k == 4 * (k / 4) + k % 4 && 0 <= k % 4 < 4) by (nonlinear_arith)
                        requires 0 <= k;
                }
            }
            p += 1;
        }
        proof {
            assert forall|q: int, c: int| 0 <= q && 0 <= c < 4 && 4 * q + 3 < len implies
                #[trigger] self.pixels@[4 * q + c] == (if q < n && sel(q) { color@[c] } else { orig[4 * q + c] }) by {
                if q >= n {
                    assert((4 * q + c) / 4 == q) by (nonlinear_arith)
                        requires 0 <= c < 4, 0 <= q;
                }
            }
            assert forall|k: int| (len as int / 4) * 4 <= k < len implies #[trigger] self.pixels@[k] == orig[k] by {
                assert(k / 4 * 4 + 3 >= len) by (nonlinear_arith)
                    requires (len as int / 4) * 4 <= k < len, 0 <= len;
                if k < 4 * p {
                } else {
                    assert(k / 4 >= p) by (nonlinear_arith)
                        requires k >= 4 * p, 0 <= p;
                }
            }
        }
    }

    /// `fill_selected(r, g, b, a)`: paint every selected pixel with the clamped colour.
    pub fn fill_selected(&mut self, r: i64, g: i64, b: i64, a: i64)
        requires
            old(self).wf(),
            old(self).mask matches Some(m) ==> m@.len() >= old(self).width as int * old(self).height as int,
        ensures
            pixels_filled(old(self).pixels@, final(self).pixels@, old(self).width as int * old(self).height as int,
                |p: int| mask_selects_pixel(old(self).mask, p), seq![clamp_byte(r), clamp_byte(g), clamp_byte(b), clamp_byte(a)]),
            final(self).keeps_state(old(self)),
    {
        let color = [clamp_byte_exec(r), clamp_byte_exec(g), clamp_byte_exec(b), clamp_byte_exec(a)];
        proof {
            assert(color@ =~= seq![clamp_byte(r), clamp_byte(g), clamp_byte(b), clamp_byte(a)]);
        }
        self.paint_selected(color);
    }

    /// `delete_selected()`: make every selected pixel fully transparent black.
    pub fn delete_selected(&mut self)
        requires
            old(self).wf(),
            old(self).mask matches Some(m) ==> m@.len() >= old(self).width as int * old(self).height as int,
        ensures
            pixels_filled(old(self).pixels@, final(self).pixels@, old(self).width as int * old(self).height as int,
                |p: int| mask_selects_pixel(old(self).mask, p), seq![0u8, 0u8, 0u8, 0u8]),
            final(self).keeps_state(old(self)),
    {
        let color = [0u8, 0u8, 0u8, 0u8];
        proof {
            assert(color@ =~= seq![0u8, 0u8, 0u8, 0u8]);
        }
        self.paint_selected(color);
    }

    /// Advance the generator and return its new state.
    pub fn next_random(&mut self) -> (s: u64)
        ensures
            s == xorshift(old(self).rng_state),
            final(self).rng_state == s,
            final(self).pixels@ == old(self).pixels@,
            final(self).width == old(self).width,
            final(self).height == old(self).height,
            final(self).mask == old(self).mask,
            final(self).canvas_ops@ == old(self).canvas_ops@,
    {
        let mut s = self.rng_state;
        s = s ^ (s << 13u64);
        s = s ^ (s >> 7u64);
        s = s ^ (s << 17u64);
        self.rng_state = s;
        s
    }

    /// `rand_int(min, max)`: `min` when the range is empty (the generator is not advanced);
    /// otherwise `min + s % (max - min)` for the generator's next state `s`.
    pub fn rand_int(&mut self, min: i64, max: i64) -> (r: i64)
        ensures
            min >= max ==> r == min && *final(self) == *old(self),
            min < max ==> {
                let s = xorshift(old(self).rng_state);
                &&& r == min + (s % ((max - min) as u64)) as int
                &&& min <= r < max
                &&& final(self).rng_state == s
            },
            final(self).pixels@ == old(self).pixels@,
            final(self).width == old(self).width,
            final(self).height == old(self).height,
            final(self).mask == old(self).mask,
            final(self).canvas_ops@ == old(self).canvas_ops@,
    {
        if min >= max {
            return min;
        }
        let s = self.next_random();
        let range = (max as i128 - min as i128) as u64;
        let off = s % range;
        (min as i128 + off as i128) as i64
    }
}


impl ScriptContext {
    /// The buffer holds all `width * height` pixels (it may hold more).
    pub open spec fn has_image(&self) -> bool {
        self.pixels@.len() >= self.width as int * self.height as int * 4
    }

    /// The first `width * height` pixels of the buffer.
    pub open spec fn image_data(&self) -> Seq<u8> {
        self.pixels@.subrange(0, self.width as int * self.height as int * 4)
    }

    /// The image part of the buffer, when the buffer holds all of it.
    fn as_image(&self) -> (img: Option<RgbaImage>)
        requires
            self.wf(),
        ensures
            match img {
                Some(i) => self.has_image() && i.wf() && i.width == self.width && i.height == self.height
                    && i.data@ == self.image_data(),
                None => !self.has_image(),
            },
    {
        let need = (self.width as u64) * (self.height as u64) * 4;
        if (self.pixels.len() as u64) < need {
            return None;
        }
        let n = need as usize;
        let mut data: Vec<u8> = Vec::new();
        let mut i: usize = 0;
        while i < n
            invariant
                n <= self.pixels@.len(),
                i <= n,
                data@ == self.pixels@.subrange(0, i as int),
            decreases n - i,
        {
            data.push(self.pixels[i]);
            proof {
                assert(data@ =~= self.pixels@.subrange(0, i + 1));
            }
            i += 1;
        }
        Some(RgbaImage { width: self.width, height: self.height, data })
    }

    /// Transform the image part of the buffer by `o` (nothing when the buffer is short);
    /// the size fields are left alone.
    fn orient_pixels(&mut self, o: Orientation)
        requires
            old(self).wf(),
        ensures
            old(self).has_image() ==> oriented_data(final(self).pixels@, old(self).image_data(), old(self).width, old(self).height, o),
            !old(self).has_image() ==> final(self).pixels@ == old(self).pixels@,
            final(self).keeps_state(old(self)),
    {
        match self.as_image() {
            Some(img) => {
                let out = orient(&img, o);
                self.pixels = out.data;
            },
            None => {},
        }
    }

    /// `flip_horizontal()`: mirror the working layer left and right.
    pub fn flip_horizontal(&mut self)
        requires
            old(self).wf(),
        ensures
            old(self).has_image() ==> oriented_data(final(self).pixels@, old(self).image_data(), old(self).width, old(self).height, Orientation::FlipHorizontal),
            !old(self).has_image() ==> final(self).pixels@ == old(self).pixels@,
            final(self).keeps_state(old(self)),
    {
        self.orient_pixels(Orientation::FlipHorizontal);
    }

    /// `flip_vertical()`: mirror the working layer top and bottom.
    pub fn flip_vertical(&mut self)
        requires
            old(self).wf(),
        ensures
            old(self).has_image() ==> oriented_data(final(self).pixels@, old(self).image_data(), old(self).width, old(self).height, Orientation::FlipVertical),
            !old(self).has_image() ==> final(self).pixels@ == old(self).pixels@,
            final(self).keeps_state(old(self)),
    {
        self.orient_pixels(Orientation::FlipVertical);
    }

    /// `rotate_180()`: turn the working layer a half turn.
    pub fn rotate_180(&mut self)
        requires
            old(self).wf(),
        ensures
            old(self).has_image() ==> oriented_data(final(self).pixels@, old(self).image_data(), old(self).width, old(self).height, Orientation::Rotate180),
            !old(self).has_image() ==> final(self).pixels@ == old(self).pixels@,
            final(self).keeps_state(old(self)),
    {
        self.orient_pixels(Orientation::Rotate180);
    }

    /// A canvas-wide transform: transform the working layer by `o`, exchange width and
    /// height for a quarter turn (even when the buffer is short), and record `op`.
    fn orient_canvas_op(&mut self, o: Orientation, op: CanvasOpRequest)
        requires
            old(self).wf(),
        ensures
            final(self).wf(),
            old(self).has_image() ==> oriented_data(final(self).pixels@, old(self).image_data(), old(self).width, old(self).height, o),
            !old(self).has_image() ==> final(self).pixels@ == old(self).pixels@,
            final(self).width == crate::transform::oriented_width(o, old(self).width, old(self).height),
            final(self).height == crate::transform::oriented_height(o, old(self).width, old(self).height),
            final(self).mask == old(self).mask,
            final(self).rng_state == old(self).rng_state,
            final(self).canvas_ops@ == old(self).canvas_ops@.push(op),
    {
        self.orient_pixels(o);
        match o {
            Orientation::Rotate90 | Orientation::Rotate270 => {
                let w = self.width;
                let h = self.height;
                self.width = h;
                self.height = w;
                proof {
                    assert(h as int * w as int == w as int * h as int) by (nonlinear_arith);
                }
            },
            _ => {},
        }
        self.canvas_ops.push(op);
    }

    /// `flip_canvas_horizontal()`: mirror left and right and record it for the other layers.
    pub fn flip_canvas_horizontal(&mut self)
        requires
            old(self).wf(),
        ensures
            final(self).wf(),
            old(self).has_image() ==> op_result(final(self).pixels@, old(self).image_data(), old(self).width, old(self).height, CanvasOpRequest::FlipHorizontal),
            old(self).has_image() ==> oriented_data(final(self).pixels@, old(self).image_data(), old(self).width, old(self).height, Orientation::FlipHorizontal),
            !old(self).has_image() ==> final(self).pixels@ == old(self).pixels@,
            final(self).width == old(self).width,
            final(self).height == old(self).height,
            final(self).mask == old(self).mask,
            final(self).rng_state == old(self).rng_state,
            final(self).canvas_ops@ == old(self).canvas_ops@.push(CanvasOpRequest::FlipHorizontal),
    {
        self.orient_canvas_op(Orientation::FlipHorizontal, CanvasOpRequest::FlipHorizontal);
    }

    /// `flip_canvas_vertical()`: mirror top and bottom and record it for the other layers.
    pub fn flip_canvas_vertical(&mut self)
        requires
            old(self).wf(),
        ensures
            final(self).wf(),
            old(self).has_image() ==> op_result(final(self).pixels@, old(self).image_data(), old(self).width, old(self).height, CanvasOpRequest::FlipVertical),
            old(self).has_image() ==> oriented_data(final(self).pixels@, old(self).image_data(), old(self).width, old(self).height, Orientation::FlipVertical),
            !old(self).has_image() ==> final(self).pixels@ == old(self).pixels@,
            final(self).width == old(self).width,
            final(self).height == old(self).height,
            final(self).mask == old(self).mask,
            final(self).rng_state == old(self).rng_state,
            final(self).canvas_ops@ == old(self).canvas_ops@.push(CanvasOpRequest::FlipVertical),
    {
        self.orient_canvas_op(Orientation::FlipVertical, CanvasOpRequest::FlipVertical);
    }

    /// `rotate_canvas_90cw()`: turn a quarter turn clockwise, exchange width and height, and
    /// record it for the other layers.
    pub fn rotate_canvas_90cw(&mut self)
        requires
            old(self).wf(),
        ensures
            final(self).wf(),
            old(self).has_image() ==> op_result(final(self).pixels@, old(self).image_data(), old(self).width, old(self).height, CanvasOpRequest::Rotate90CW),
            old(self).has_image() ==> oriented_data(final(self).pixels@, old(self).image_data(), old(self).width, old(self).height, Orientation::Rotate90),
            !old(self).has_image() ==> final(self).pixels@ == old(self).pixels@,
            final(self).width == old(self).height,
            final(self).height == old(self).width,
            final(self).mask == old(self).mask,
            final(self).rng_state == old(self).rng_state,
            final(self).canvas_ops@ == old(self).canvas_ops@.push(CanvasOpRequest::Rotate90CW),
    {
        self.orient_canvas_op(Orientation::Rotate90, CanvasOpRequest::Rotate90CW);
    }

    /// `rotate_canvas_90ccw()`: turn a quarter turn counter-clockwise, exchange width and
    /// height, and record it for the other layers.
    pub fn rotate_canvas_90ccw(&mut self)
        requires
            old(self).wf(),
        ensures
            final(self).wf(),
            old(self).has_image() ==> op_result(final(self).pixels@, old(self).image_data(), old(self).width, old(self).height, CanvasOpRequest::Rotate90CCW),
            old(self).has_image() ==> oriented_data(final(self).pixels@, old(self).image_data(), old(self).width, old(self).height, Orientation::Rotate270),
            !old(self).has_image() ==> final(self).pixels@ == old(self).pixels@,
            final(self).width == old(self).height,
            final(self).height == old(self).width,
            final(self).mask == old(self).mask,
            final(self).rng_state == old(self).rng_state,
            final(self).canvas_ops@ == old(self).canvas_ops@.push(CanvasOpRequest::Rotate90CCW),
    {
        self.orient_canvas_op(Orientation::Rotate270, CanvasOpRequest::Rotate90CCW);
    }

    /// `rotate_canvas_180()`: turn a half turn and record it for the other layers.
    pub fn rotate_canvas_180(&mut self)
        requires
            old(self).wf(),
        ensures
            final(self).wf(),
            old(self).has_image() ==> op_result(final(self).pixels@, old(self).image_data(), old(self).width, old(self).height, CanvasOpRequest::Rotate180),
            old(self).has_image() ==> oriented_data(final(self).pixels@, old(self).image_data(), old(self).width, old(self).height, Orientation::Rotate180),
            !old(self).has_image() ==> final(self).pixels@ == old(self).pixels@,
            final(self).width == old(self).width,
            final(self).height == old(self).height,
            final(self).mask == old(self).mask,
            final(self).rng_state == old(self).rng_state,
            final(self).canvas_ops@ == old(self).canvas_ops@.push(CanvasOpRequest::Rotate180),
    {
        self.orient_canvas_op(Orientation::Rotate180, CanvasOpRequest::Rotate180);
    }

    /// `resize_image(w, h, method)`: with both sizes clamped to `1..=32768` and the filter
    /// named by `method`, do nothing when the size is unchanged; otherwise resample the image
    /// (when the buffer holds it, which also sets the new size) and record the request.
    pub fn resize_image(&mut self, new_w: i64, new_h: i64, method: &str)
        requires
            old(self).wf(),
            clamp_dim(new_w) as int * clamp_dim(new_h) as int * 4 <= usize::MAX,
            old(self).width as int * clamp_dim(new_h) as int * 4 <= usize::MAX,
        ensures
            final(self).wf(),
            old(self).has_image() && final(self).canvas_ops@.len() > old(self).canvas_ops@.len() ==> op_result(
                final(self).pixels@, old(self).image_data(), old(self).width, old(self).height, final(self).canvas_ops@.last()),
            final(self).mask == old(self).mask,
            final(self).rng_state == old(self).rng_state,
            ({
                let nw = clamp_dim(new_w);
                let nh = clamp_dim(new_h);
                let filter = filter_named(lowercase_of(method@));
                if nw == old(self).width && nh == old(self).height {
                    &&& final(self).pixels@ == old(self).pixels@
                    &&& final(self).width == old(self).width
                    &&& final(self).height == old(self).height
                    &&& final(self).canvas_ops@ == old(self).canvas_ops@
                } else {
                    &&& final(self).canvas_ops@ == old(self).canvas_ops@.push(CanvasOpRequest::ResizeImage { w: nw, h: nh, filter })
                    &&& if old(self).has_image() {
                        &&& resample_outcome(final(self).pixels@, old(self).image_data(), old(self).width, old(self).height, nw, nh, filter)
                        &&& final(self).width == nw
                        &&& final(self).height == nh
                    } else {
                        &&& final(self).pixels@ == old(self).pixels@
                        &&& final(self).width == old(self).width
                        &&& final(self).height == old(self).height
                    }
                }
            }),
    {
        let nw0 = if new_w < 1 { 1u32 } else { new_w as u32 };
        let nw = if nw0 < 32768 { nw0 } else { 32768 };
        let nh0 = if new_h < 1 { 1u32 } else { new_h as u32 };
        let nh = if nh0 < 32768 { nh0 } else { 32768 };
        let filter = parse_script_filter(method);
        if nw == self.width && nh == self.height {
            return;
        }
        match self.as_image() {
            Some(img) => {
                let out = resize_rgba(&img, nw, nh, filter);
                self.pixels = out.data;
                self.width = nw;
                self.height = nh;
                proof {
                    assert(nw as int * nh as int <= 0x4000_0000) by (nonlinear_arith)
                        requires nw <= 32768, nh <= 32768;
                }
            },
            None => {},
        }
        self.canvas_ops.push(CanvasOpRequest::ResizeImage { w: nw, h: nh, filter });
    }

    /// `resize_canvas(w, h, anchor)`: with both sizes clamped to `1..=32768`, place the image
    /// (when the buffer holds it, which also sets the new size) at the named anchor on a
    /// transparent canvas of the new size, and record the request.
    pub fn resize_canvas(&mut self, new_w: i64, new_h: i64, anchor: &str)
        requires
            old(self).wf(),
            clamp_dim(new_w) as int * clamp_dim(new_h) as int * 4 <= usize::MAX,
        ensures
            final(self).wf(),
            old(self).has_image() && final(self).canvas_ops@.len() > old(self).canvas_ops@.len() ==> op_result(
                final(self).pixels@, old(self).image_data(), old(self).width, old(self).height, final(self).canvas_ops@.last()),
            final(self).mask == old(self).mask,
            final(self).rng_state == old(self).rng_state,
            ({
                let nw = clamp_dim(new_w);
                let nh = clamp_dim(new_h);
                let a = anchor_named(lowercase_of(anchor@));
                let w = old(self).width;
                let h = old(self).height;
                &&& final(self).canvas_ops@ == old(self).canvas_ops@.push(CanvasOpRequest::ResizeCanvas { new_w: nw, new_h: nh, anchor: a })
                &&& if old(self).has_image() {
                    &&& padded_data(final(self).pixels@, old(self).image_data(), w as int, w as int, h as int, nw, nh,
                        anchor_offset(a.0, nw, w), anchor_offset(a.1, nh, h), [0u8, 0u8, 0u8, 0u8])
                    &&& final(self).width == nw
                    &&& final(self).height == nh
                } else {
                    &&& final(self).pixels@ == old(self).pixels@
                    &&& final(self).width == w
                    &&& final(self).height == h
                }
            }),
    {
        let nw0 = if new_w < 1 { 1u32 } else { new_w as u32 };
        let nw = if nw0 < 32768 { nw0 } else { 32768 };
        let nh0 = if new_h < 1 { 1u32 } else { new_h as u32 };
        let nh = if nh0 < 32768 { nh0 } else { 32768 };
        let a = parse_anchor(anchor);
        let ox = anchor_offset_exec(a.0, nw, self.width);
        let oy = anchor_offset_exec(a.1, nh, self.height);
        match self.as_image() {
            Some(img) => {
                let out = pad_region(&img, img.width, img.height, nw, nh, ox, oy, [0u8, 0u8, 0u8, 0u8]);
                self.pixels = out.data;
                self.width = nw;
                self.height = nh;
                proof {
                    assert(nw as int * nh as int <= 0x4000_0000) by (nonlinear_arith)
                        requires nw <= 32768, nh <= 32768;
                }
            },
            None => {},
        }
        self.canvas_ops.push(CanvasOpRequest::ResizeCanvas { new_w: nw, new_h: nh, anchor: a });
    }
}

/// A channel written back from a per-pixel script callback: the integer the script returned
/// there, clamped, or the value already there when that element is not an integer.
pub open spec fn callback_channel(v: Option<i64>, orig: u8) -> u8 {
    match v {
        Some(i) => clamp_byte(i),
        None => orig,
    }
}

/// Write back the result of a per-pixel script callback for the pixel whose first byte is at
/// `base`: when the callback returned an array of at least four elements, each channel comes
/// from `callback_channel`; any other result leaves the pixel as it was.
pub fn write_callback_result(pixels: &mut Vec<u8>, base: usize, result: &Option<Vec<Option<i64>>>)
    requires
        base + 4 <= old(pixels)@.len(),
    ensures
        final(pixels)@.len() == old(pixels)@.len(),
        match result {
            Some(arr) if arr@.len() >= 4 => forall|k: int| 0 <= k < final(pixels)@.len() ==> #[trigger] final(pixels)@[k] == (
                if base <= k < base + 4 { callback_channel(arr@[k - base], old(pixels)@[k]) } else { old(pixels)@[k] }),
            _ => final(pixels)@ == old(pixels)@,
        },
{
    match result {
        Some(arr) => {
            if arr.len() >= 4 {
                let len = pixels.len();
                let mut c: usize = 0;
                while c < 4
                    invariant
                        len == pixels@.len(),
                        base + 4 <= pixels@.len(),
                        pixels@.len() == old(pixels)@.len(),
                        arr@.len() >= 4,
                        c <= 4,
                        forall|k: int| 0 <= k < pixels@.len() ==> #[trigger] pixels@[k] == (
                            if base <= k < base + c { callback_channel(arr@[k - base], old(pixels)@[k]) } else { old(pixels)@[k] }),
                    decreases 4 - c,
                {
                    let orig = pixels[base + c];
                    let v = match arr[c] {
                        Some(i) => clamp_byte_exec(i),
                        None => orig,
                    };
                    pixels.set(base + c, v);
                    c += 1;
                }
            }
        },
        None => {},
    }
}

/// The pixel range `[x0, x1) x [y0, y1)` that `for_region(x, y, w, h, f)` visits on a
/// `width` by `height` canvas: starts are clamped below at 0 (and taken modulo 2^32), ends
/// `x + w` and `y + h` are taken modulo 2^32 and capped at the canvas size.
pub open spec fn region_of(rx: i64, ry: i64, rw: i64, rh: i64, width: u32, height: u32) -> (u32, u32, u32, u32) {
    let x0 = (if rx < 0 { 0 } else { rx }) as u32;
    let y0 = (if ry < 0 { 0 } else { ry }) as u32;
    let xe = (rx + rw) as u32;
    let ye = (ry + rh) as u32;
    (x0, y0, if xe < width { xe } else { width }, if ye < height { ye } else { height })
}

/// Exec form of `region_of`.
pub fn region_bounds(rx: i64, ry: i64, rw: i64, rh: i64, width: u32, height: u32) -> (r: (u32, u32, u32, u32))
    ensures
        r == region_of(rx, ry, rw, rh, width, height),
{
    let x0 = (if rx < 0 { 0 } else { rx }) as u32;
    let y0 = (if ry < 0 { 0 } else { ry }) as u32;
    let xe = (rx as i128 + rw as i128) as u32;
    let ye = (ry as i128 + rh as i128) as u32;
    (x0, y0, if xe < width { xe } else { width }, if ye < height { ye } else { height })
}


/// Canvas size after replaying `op` on a `w` by `h` canvas.
pub open spec fn size_after(op: CanvasOpRequest, w: u32, h: u32) -> (u32, u32) {
    match op {
        CanvasOpRequest::Rotate90CW => (h, w),
        CanvasOpRequest::Rotate90CCW => (h, w),
        CanvasOpRequest::ResizeImage { w: nw, h: nh, filter: _ } => (nw, nh),
        CanvasOpRequest::ResizeCanvas { new_w, new_h, anchor: _ } => (new_w, new_h),
        _ => (w, h),
    }
}

/// Canvas size after replaying all of `ops`, in order, on a `w` by `h` canvas.
pub open spec fn size_after_all(ops: Seq<CanvasOpRequest>, w: u32, h: u32) -> (u32, u32)
    decreases ops.len(),
{
    if ops.len() == 0 {
        (w, h)
    } else {
        let s = size_after_all(ops.drop_last(), w, h);
        size_after(ops.last(), s.0, s.1)
    }
}

/// Replaying `op` on a `w` by `h` image needs no arithmetic beyond the machine's.
pub open spec fn op_safe(op: CanvasOpRequest, w: u32, h: u32) -> bool {
    match op {
        CanvasOpRequest::ResizeImage { w: nw, h: nh, filter: _ } =>
            nw as int * nh as int * 4 <= usize::MAX && w as int * nh as int * 4 <= usize::MAX,
        CanvasOpRequest::ResizeCanvas { new_w, new_h, anchor: _ } =>
            new_w as int * new_h as int * 4 <= usize::MAX && offset_safe(w, h, new_w, new_h),
        _ => true,
    }
}

/// Every op of `ops` is safe on the size that the ops before it produce.
pub open spec fn ops_safe(ops: Seq<CanvasOpRequest>, w: u32, h: u32) -> bool
    decreases ops.len(),
{
    ops.len() == 0 || {
        let s = size_after_all(ops.drop_last(), w, h);
        ops_safe(ops.drop_last(), w, h) && op_safe(ops.last(), s.0, s.1)
    }
}

/// The buffer `out` is the `w` by `h` buffer `src` after replaying `op` (a canvas resize
/// fills new space with transparent black).
pub open spec fn op_result(out: Seq<u8>, src: Seq<u8>, w: u32, h: u32, op: CanvasOpRequest) -> bool {
    match op {
        CanvasOpRequest::FlipHorizontal => oriented_data(out, src, w, h, Orientation::FlipHorizontal),
        CanvasOpRequest::FlipVertical => oriented_data(out, src, w, h, Orientation::FlipVertical),
        CanvasOpRequest::Rotate90CW => oriented_data(out, src, w, h, Orientation::Rotate90),
        CanvasOpRequest::Rotate90CCW => oriented_data(out, src, w, h, Orientation::Rotate270),
        CanvasOpRequest::Rotate180 => oriented_data(out, src, w, h, Orientation::Rotate180),
        CanvasOpRequest::ResizeImage { w: nw, h: nh, filter } => resample_outcome(out, src, w, h, nw, nh, filter),
        CanvasOpRequest::ResizeCanvas { new_w, new_h, anchor } => padded_data(out, src, w as int, w as int, h as int, new_w, new_h,
            anchor_offset(anchor.0, new_w, w), anchor_offset(anchor.1, new_h, h), [0u8, 0u8, 0u8, 0u8]),
    }
}

/// Step `k` of a chain of buffers: `chain[k + 1]` is `chain[k]` after op `k`, on the
/// size that the ops before it produce.
pub open spec fn chain_step(chain: Seq<Seq<u8>>, w: u32, h: u32, ops: Seq<CanvasOpRequest>, k: int) -> bool {
    let s = size_after_all(ops.take(k), w, h);
    op_result(chain[k + 1], chain[k], s.0, s.1, ops[k])
}

/// `chain` starts at `src` and takes one step per op of `ops`.
pub open spec fn replay_chain(chain: Seq<Seq<u8>>, src: Seq<u8>, w: u32, h: u32, ops: Seq<CanvasOpRequest>) -> bool {
    &&& chain.len() == ops.len() + 1
    &&& chain[0] == src
    &&& forall|k: int| 0 <= k < ops.len() ==> #[trigger] chain_step(chain, w, h, ops, k)
}

/// The buffer `out` is the `w` by `h` buffer `src` after replaying all of `ops` in order.
pub open spec fn replayed(out: Seq<u8>, src: Seq<u8>, w: u32, h: u32, ops: Seq<CanvasOpRequest>) -> bool {
    exists|chain: Seq<Seq<u8>>| #[trigger] replay_chain(chain, src, w, h, ops) && chain.last() == out
}

/// Replaying no op leaves a buffer as it is.
proof fn lemma_replay_none(src: Seq<u8>, w: u32, h: u32, ops: Seq<CanvasOpRequest>)
    requires
        ops.len() == 0,
    ensures
        replayed(src, src, w, h, ops),
{
    let chain = seq![src];
    assert(replay_chain(chain, src, w, h, ops));
}

/// Replay one canvas operation on an image.
pub fn replay_op(img: &RgbaImage, op: CanvasOpRequest) -> (out: RgbaImage)
    requires
        img.wf(),
        op_safe(op, img.width, img.height),
    ensures
        out.wf(),
        (out.width, out.height) == size_after(op, img.width, img.height),
        op_result(out.data@, img.data@, img.width, img.height, op),
{
    match op {
        CanvasOpRequest::FlipHorizontal => orient(img, Orientation::FlipHorizontal),
        CanvasOpRequest::FlipVertical => orient(img, Orientation::FlipVertical),
        CanvasOpRequest::Rotate90CW => orient(img, Orientation::Rotate90),
        CanvasOpRequest::Rotate90CCW => orient(img, Orientation::Rotate270),
        CanvasOpRequest::Rotate180 => orient(img, Orientation::Rotate180),
        CanvasOpRequest::ResizeImage { w, h, filter } => resize_rgba(img, w, h, filter),
        CanvasOpRequest::ResizeCanvas { new_w, new_h, anchor } => {
            let ox = anchor_offset_exec(anchor.0, new_w, img.width);
            let oy = anchor_offset_exec(anchor.1, new_h, img.height);
            pad_region(img, img.width, img.height, new_w, new_h, ox, oy, [0u8, 0u8, 0u8, 0u8])
        },
    }
}

/// Replaying one more op extends a replay.
proof fn lemma_replay_step(out: Seq<u8>, mid: Seq<u8>, src: Seq<u8>, w: u32, h: u32, ops: Seq<CanvasOpRequest>, k: int)
    requires
        0 <= k < ops.len(),
        replayed(mid, src, w, h, ops.take(k)),
        op_result(out, mid, size_after_all(ops.take(k), w, h).0, size_after_all(ops.take(k), w, h).1, ops[k]),
    ensures
        replayed(out, src, w, h, ops.take(k + 1)),
        size_after_all(ops.take(k + 1), w, h) == size_after(ops[k], size_after_all(ops.take(k), w, h).0, size_after_all(ops.take(k), w, h).1),
{
    let t = ops.take(k);
    let t1 = ops.take(k + 1);
    assert(t1.drop_last() =~= t);
    let chain = choose|chain: Seq<Seq<u8>>| #[trigger] replay_chain(chain, src, w, h, t) && chain.last() == mid;
    let c2 = chain.push(out);
    assert forall|j: int| 0 <= j < t1.len() implies #[trigger] chain_step(c2, w, h, t1, j) by {
        assert(t1.take(j) =~= t.take(j)) by {
            if j == k {
                assert(t1.take(j) =~= t);
                assert(t.take(j) =~= t);
            }
        }
        if j < k {
            assert(chain_step(chain, w, h, t, j));
            assert(t1[j] == t[j]);
        }
    }
    assert(replay_chain(c2, src, w, h, t1));
}

/// Safety of all ops gives safety of each op on the size reached before it.
proof fn lemma_ops_safe_prefix(ops: Seq<CanvasOpRequest>, w: u32, h: u32, k: int)
    requires
        ops_safe(ops, w, h),
        0 <= k < ops.len(),
    ensures
        op_safe(ops[k], size_after_all(ops.take(k), w, h).0, size_after_all(ops.take(k), w, h).1),
    decreases ops.len(),
{
    if k == ops.len() - 1 {
        assert(ops.drop_last() =~= ops.take(k));
    } else {
        lemma_ops_safe_prefix(ops.drop_last(), w, h, k);
        assert(ops.drop_last().take(k) =~= ops.take(k));
        assert(ops.drop_last()[k] == ops[k]);
    }
}

/// A canvas size fits in memory once every replayed op is safe and the start size fits.
proof fn lemma_size_after_fits(ops: Seq<CanvasOpRequest>, w: u32, h: u32)
    requires
        ops_safe(ops, w, h),
        w as int * h as int * 4 <= usize::MAX,
    ensures
        size_after_all(ops, w, h).0 as int * size_after_all(ops, w, h).1 as int * 4 <= usize::MAX,
    decreases ops.len(),
{
    if ops.len() > 0 {
        lemma_size_after_fits(ops.drop_last(), w, h);
        let s = size_after_all(ops.drop_last(), w, h);
        assert(s.1 as int * s.0 as int == s.0 as int * s.1 as int) by (nonlinear_arith);
    }
}

/// Replay the canvas-wide operations `ops`, in order, on every layer except
/// `active_layer_idx` (which already holds its result), then set the canvas size to the one
/// the operations produce.
pub fn apply_canvas_ops(state: &mut CanvasState, active_layer_idx: usize, ops: &[CanvasOpRequest])
    requires
        old(state).width as int * old(state).height as int * 4 <= usize::MAX,
        old(state).layers@.len() >= 1,
        old(state).active_layer_index < old(state).layers@.len(),
        old(state).selection_mask matches Some(m) ==> m.wf(),
        ops_safe(ops@, old(state).width, old(state).height),
        forall|i: int| 0 <= i < old(state).layers@.len() && i != active_layer_idx ==>
            (#[trigger] old(state).layers@[i]).fits(old(state).width, old(state).height),
        active_layer_idx < old(state).layers@.len() ==> old(state).layers@[active_layer_idx as int].fits(
            size_after_all(ops@, old(state).width, old(state).height).0,
            size_after_all(ops@, old(state).width, old(state).height).1),
    ensures
        final(state).wf(),
        (final(state).width, final(state).height) == size_after_all(ops@, old(state).width, old(state).height),
        final(state).layers@.len() == old(state).layers@.len(),
        forall|i: int| 0 <= i < old(state).layers@.len() && i != active_layer_idx ==> {
            &&& #[trigger] final(state).layers@[i] == old(state).layers@[i].with_pixels(final(state).layers@[i].pixels)
            &&& replayed(final(state).layers@[i].pixels.data@, old(state).layers@[i].pixels.data@, old(state).width, old(state).height, ops@)
        },
        active_layer_idx < old(state).layers@.len() ==> final(state).layers@[active_layer_idx as int] == old(state).layers@[active_layer_idx as int],
        final(state).active_layer_index == old(state).active_layer_index,
        final(state).selection_mask == old(state).selection_mask,
        final(state).dirty == old(state).dirty,
{
    let w0 = state.width;
    let h0 = state.height;
    let ghost orig = state.layers@;
    let mut cur_w = state.width;
    let mut cur_h = state.height;
    let n = state.layers.len();
    let mut k: usize = 0;
    proof {
        assert forall|i: int| 0 <= i < n && i != active_layer_idx implies
            #[trigger] replayed(state.layers@[i].pixels.data@, orig[i].pixels.data@, w0, h0, ops@.take(0)) by {
            lemma_replay_none(orig[i].pixels.data@, w0, h0, ops@.take(0));
        }
    }
    while k < ops.len()
        invariant
            orig == old(state).layers@,
            w0 == old(state).width,
            h0 == old(state).height,
            w0 as int * h0 as int * 4 <= usize::MAX,
            ops_safe(ops@, w0, h0),
            n == orig.len(),
            state.layers@.len() == n,
            k <= ops@.len(),
            (cur_w, cur_h) == size_after_all(ops@.take(k as int), w0, h0),
            state.width == w0,
            state.height == h0,
            state.active_layer_index == old(state).active_layer_index,
            state.selection_mask == old(state).selection_mask,
            state.dirty == old(state).dirty,
            forall|i: int| 0 <= i < n && i != active_layer_idx ==> {
                &&& #[trigger] state.layers@[i] == orig[i].with_pixels(state.layers@[i].pixels)
                &&& state.layers@[i].fits(cur_w, cur_h)
                &&& replayed(state.layers@[i].pixels.data@, orig[i].pixels.data@, w0, h0, ops@.take(k as int))
            },
            active_layer_idx < n ==> state.layers@[active_layer_idx as int] == orig[active_layer_idx as int],
        decreases ops@.len() - k,
    {
        let op = ops[k];
        proof {
            lemma_ops_safe_prefix(ops@, w0, h0, k as int);
        }
        let ghost before = state.layers@;
        let mut i: usize = 0;
        while i < n
            invariant
                orig == old(state).layers@,
                w0 == old(state).width,
                h0 == old(state).height,
                ops_safe(ops@, w0, h0),
                n == orig.len(),
                state.layers@.len() == n,
                before.len() == n,
                k < ops@.len(),
                op == ops@[k as int],
                op_safe(op, cur_w, cur_h),
                (cur_w, cur_h) == size_after_all(ops@.take(k as int), w0, h0),
                i <= n,
                state.width == w0,
                state.height == h0,
                state.active_layer_index == old(state).active_layer_index,
                state.selection_mask == old(state).selection_mask,
                state.dirty == old(state).dirty,
                forall|j: int| 0 <= j < n && j != active_layer_idx ==> {
                    &&& #[trigger] before[j] == orig[j].with_pixels(before[j].pixels)
                    &&& before[j].fits(cur_w, cur_h)
                    &&& replayed(before[j].pixels.data@, orig[j].pixels.data@, w0, h0, ops@.take(k as int))
                },
                forall|j: int| i <= j < n ==> #[trigger] state.layers@[j] == before[j],
                forall|j: int| 0 <= j < i && j != active_layer_idx ==> {
                    &&& #[trigger] state.layers@[j] == orig[j].with_pixels(state.layers@[j].pixels)
                    &&& state.layers@[j].fits(size_after(op, cur_w, cur_h).0, size_after(op, cur_w, cur_h).1)
                    &&& replayed(state.layers@[j].pixels.data@, orig[j].pixels.data@, w0, h0, ops@.take(k + 1))
                },
                active_layer_idx < n ==> state.layers@[active_layer_idx as int] == before[active_layer_idx as int],
            decreases n - i,
        {
            if i != active_layer_idx {
                let mut layer = state.layers.remove(i);
                let ghost mid = layer.pixels.data@;
                let px = replay_op(&layer.pixels, op);
                proof {
                    lemma_replay_step(px.data@, mid, orig[i as int].pixels.data@, w0, h0, ops@, k as int);
                }
                layer.pixels = px;
                state.layers.insert(i, layer);
            }
            i += 1;
        }
        proof {
            assert(ops@.take(k + 1).drop_last() =~= ops@.take(k as int));
        }
        match op {
            CanvasOpRequest::Rotate90CW | CanvasOpRequest::Rotate90CCW => {
                let t = cur_w;
                cur_w = cur_h;
                cur_h = t;
            },
            CanvasOpRequest::ResizeImage { w, h, filter: _ } => {
                cur_w = w;
                cur_h = h;
            },
            CanvasOpRequest::ResizeCanvas { new_w, new_h, anchor: _ } => {
                cur_w = new_w;
                cur_h = new_h;
            },
            _ => {},
        }
        k += 1;
    }
    proof {
        assert(ops@.take(ops@.len() as int) =~= ops@);
        lemma_size_after_fits(ops@, w0, h0);
    }
    state.width = cur_w;
    state.height = cur_h;
    proof {
        assert forall|i: int| 0 <= i < state.layers@.len() implies #[trigger] state.layers@[i].fits(state.width, state.height) by {
            if i != active_layer_idx {
            }
        }
    }
}


/// Whether replaying `op` on a `w` by `h` buffer has one possible result: every op but a
/// resize whose filter is not reproducible, which is pinned down only when the source is
/// empty or keeps its size.
pub open spec fn op_determined(op: CanvasOpRequest, w: u32, h: u32) -> bool {
    op matches CanvasOpRequest::ResizeImage { w: nw, h: nh, filter } ==>
        (filter_reproducible(filter) || w == 0 || h == 0 || (nw == w && nh == h))
}

/// An op's result is determined by its input: two results of replaying the same op on the
/// same buffer are equal, wherever `op_determined` holds. With the `op_result` clause of
/// the context's canvas-wide methods, this says that replaying a recorded op on a layer
/// whose pixels equal the working layer's gives that layer the working layer's new pixels.
pub proof fn lemma_op_result_unique(a: Seq<u8>, b: Seq<u8>, src: Seq<u8>, w: u32, h: u32, op: CanvasOpRequest)
    requires
        op_determined(op, w, h),
        op_result(a, src, w, h, op),
        op_result(b, src, w, h, op),
    ensures
        a == b,
{
    match op {
        CanvasOpRequest::ResizeImage { w: nw, h: nh, filter } => {
            if !filter_reproducible(filter) && (w == 0 || h == 0) {
                assert(a =~= b);
            }
        },
        CanvasOpRequest::ResizeCanvas { new_w, new_h, anchor } => {
            crate::raster::lemma_pixelwise_equal(a, b, new_w as int, new_h as int);
        },
        _ => {
            let o = match op {
                CanvasOpRequest::FlipHorizontal => Orientation::FlipHorizontal,
                CanvasOpRequest::FlipVertical => Orientation::FlipVertical,
                CanvasOpRequest::Rotate90CW => Orientation::Rotate90,
                CanvasOpRequest::Rotate90CCW => Orientation::Rotate270,
                _ => Orientation::Rotate180,
            };
            assert(oriented_data(a, src, w, h, o) && oriented_data(b, src, w, h, o));
            crate::raster::lemma_pixelwise_equal(a, b,
                crate::transform::oriented_width(o, w, h) as int, crate::transform::oriented_height(o, w, h) as int);
        },
    }
}


/// Inverting the colours twice gives back the buffer it started from.
pub proof fn lemma_invert_twice(p0: Seq<u8>, p1: Seq<u8>, p2: Seq<u8>)
    requires
        colour_mapped(p0, p1, |p: int, c: int| (255 - p0[4 * p + c]) as u8),
        colour_mapped(p1, p2, |p: int, c: int| (255 - p1[4 * p + c]) as u8),
    ensures
        p2 == p0,
{
    let len = p0.len() as int;
    assert forall|k: int| 0 <= k < len implies p2[k] == p0[k] by {
        if k < (len / 4) * 4 {
            lemma_whole_pixel(len, k);
            let p = k / 4;
            let c = k % 4;
            assert(p2[4 * p + c] == (if c < 3 { (255 - p1[4 * p + c]) as u8 } else { p1[4 * p + c] }));
            assert(p1[4 * p + c] == (if c < 3 { (255 - p0[4 * p + c]) as u8 } else { p0[4 * p + c] }));
        } else {
            assert(p2[k] == p1[k]);
            assert(p1[k] == p0[k]);
        }
    }
    assert(p2 =~= p0);
}

/// Inverting a selection mask twice gives back the mask it started from.
pub proof fn lemma_invert_selection_twice(m0: Seq<u8>, m1: Seq<u8>, m2: Seq<u8>)
    requires
        m1 == Seq::new(m0.len(), |i: int| (255 - m0[i]) as u8),
        m2 == Seq::new(m1.len(), |i: int| (255 - m1[i]) as u8),
    ensures
        m2 == m0,
{
    assert(m2 =~= m0);
}

} // verus!

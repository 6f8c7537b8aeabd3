//! Whole-image geometric transforms (flips, quarter turns, canvas resizing) applied to a
//! single image, to every layer of a canvas, or to one layer.
use vstd::prelude::*;
use crate::raster::{RgbaImage, pix_idx, prefix_matches, push_pixel, lemma_prefix_complete, lemma_row_step, get_px, lemma_same_pixels_same_data};
use crate::canvas::{CanvasState, Layer};
use crate::scripting::ScriptFilterType;

verus! {

/// A flip or a rotation by a multiple of 90 degrees (clockwise).
#[derive(Clone, Copy, Debug, PartialEq, Eq, Structural)]
pub enum Orientation {
    FlipHorizontal,
    FlipVertical,
    Rotate90,
    Rotate180,
    Rotate270,
}

/// Quarter turns exchange width and height.
pub open spec fn swaps_axes(o: Orientation) -> bool {
    o == Orientation::Rotate90 || o == Orientation::Rotate270
}

/// Width of a `w` by `h` image after the transform.
pub open spec fn oriented_width(o: Orientation, w: u32, h: u32) -> u32 {
    if swaps_axes(o) { h } else { w }
}

/// Height of a `w` by `h` image after the transform.
pub open spec fn oriented_height(o: Orientation, w: u32, h: u32) -> u32 {
    if swaps_axes(o) { w } else { h }
}

/// Column, in a `w` by `h` source, of the pixel that the transform moves to `(x, y)`.
pub open spec fn source_x(o: Orientation, w: int, h: int, x: int, y: int) -> int {
    match o {
        Orientation::FlipHorizontal => w - 1 - x,
        Orientation::FlipVertical => x,
        Orientation::Rotate90 => y,
        Orientation::Rotate180 => w - 1 - x,
        Orientation::Rotate270 => w - 1 - y,
    }
}

/// Row, in a `w` by `h` source, of the pixel that the transform moves to `(x, y)`.
pub open spec fn source_y(o: Orientation, w: int, h: int, x: int, y: int) -> int {
    match o {
        Orientation::FlipHorizontal => y,
        Orientation::FlipVertical => h - 1 - y,
        Orientation::Rotate90 => h - 1 - x,
        Orientation::Rotate180 => h - 1 - y,
        Orientation::Rotate270 => x,
    }
}

/// The row-major RGBA buffer `out` is the `w` by `h` buffer `src` transformed by `o`.
pub open spec fn oriented_data(out: Seq<u8>, src: Seq<u8>, w: u32, h: u32, o: Orientation) -> bool {
    let ow = oriented_width(o, w, h) as int;
    let oh = oriented_height(o, w, h) as int;
    &&& out.len() == ow * oh * 4
    &&& forall|x: int, y: int, c: int|
        0 <= x < ow && 0 <= y < oh && 0 <= c < 4 ==> #[trigger] out[pix_idx(ow, x, y, c)] == src[pix_idx(
            w as int,
            source_x(o, w as int, h as int, x, y),
            source_y(o, w as int, h as int, x, y),
            c,
        )]
}

/// `out` is `src` transformed by `o`.
pub open spec fn is_oriented(out: RgbaImage, src: RgbaImage, o: Orientation) -> bool {
    &&& out.width == oriented_width(o, src.width, src.height)
    &&& out.height == oriented_height(o, src.width, src.height)
    &&& oriented_data(out.data@, src.data@, src.width, src.height, o)
}

/// The transform that undoes `o`.
pub open spec fn inverse(o: Orientation) -> Orientation {
    match o {
        Orientation::Rotate90 => Orientation::Rotate270,
        Orientation::Rotate270 => Orientation::Rotate90,
        _ => o,
    }
}

/// Transform `src` by `o`.
pub fn orient(src: &RgbaImage, o: Orientation) -> (out: RgbaImage)
    requires
        src.wf(),
    ensures
        is_oriented(out, *src, o),
{
    let w = src.width;
    let h = src.height;
    let (ow, oh) = match o {
        Orientation::Rotate90 | Orientation::Rotate270 => (h, w),
        _ => (w, h),
    };
    let wu = w as usize;
    let hu = h as usize;
    let owu = ow as usize;
    let ohu = oh as usize;
    let ghost owi = ow as int;
    let ghost f = |x: int, y: int, c: int|
        src.at(source_x(o, w as int, h as int, x, y), source_y(o, w as int, h as int, x, y), c);
    let mut out: Vec<u8> = Vec::new();
    let mut y: usize = 0;
    while y < ohu
        invariant
            src.wf(),
            w == src.width,
            h == src.height,
            wu == w,
            hu == h,
            owu == ow,
            ohu == oh,
            owi == ow as int,
            ow == oriented_width(o, w, h),
            oh == oriented_height(o, w, h),
            f == (|x: int, y: int, c: int|
                src.at(source_x(o, w as int, h as int, x, y), source_y(o, w as int, h as int, x, y), c)),
            y <= ohu,
            out@.len() == (y * owi) * 4,
            prefix_matches(out@, owi, y * owi, f),
        decreases ohu - y,
    {
        let mut x: usize = 0;
        while x < owu
            invariant
                src.wf(),
                w == src.width,
                h == src.height,
                wu == w,
                hu == h,
                owu == ow,
                ohu == oh,
                owi == ow as int,
                ow == oriented_width(o, w, h),
                oh == oriented_height(o, w, h),
                f == (|x: int, y: int, c: int|
                    src.at(source_x(o, w as int, h as int, x, y), source_y(o, w as int, h as int, x, y), c)),
                y < ohu,
                x <= owu,
                out@.len() == (y * owi + x) * 4,
                prefix_matches(out@, owi, y * owi + x, f),
            decreases owu - x,
        {
            let (sx, sy) = match o {
                Orientation::FlipHorizontal => (wu - 1 - x, y),
                Orientation::FlipVertical => (x, hu - 1 - y),
                Orientation::Rotate90 => (y, hu - 1 - x),
                Orientation::Rotate180 => (wu - 1 - x, hu - 1 - y),
                Orientation::Rotate270 => (wu - 1 - y, x),
            };
            let (c0, c1, c2, c3) = get_px(src, sx, sy);
            push_pixel(&mut out, c0, c1, c2, c3, Ghost(owi), Ghost(x as int), Ghost(y as int), Ghost(f));
            x += 1;
        }
        proof {
            lemma_row_step(owi, y as int);
        }
        y += 1;
    }
    proof {
        lemma_prefix_complete(out@, owi, oh as int, f);
    }
    RgbaImage { width: ow, height: oh, data: out }
}

/// Mirror left and right.
pub fn flip_horizontal(src: &RgbaImage) -> (out: RgbaImage)
    requires
        src.wf(),
    ensures
        is_oriented(out, *src, Orientation::FlipHorizontal),
{
    orient(src, Orientation::FlipHorizontal)
}

/// Mirror top and bottom.
pub fn flip_vertical(src: &RgbaImage) -> (out: RgbaImage)
    requires
        src.wf(),
    ensures
        is_oriented(out, *src, Orientation::FlipVertical),
{
    orient(src, Orientation::FlipVertical)
}

/// Rotate a quarter turn clockwise.
pub fn rotate90(src: &RgbaImage) -> (out: RgbaImage)
    requires
        src.wf(),
    ensures
        is_oriented(out, *src, Orientation::Rotate90),
{
    orient(src, Orientation::Rotate90)
}

/// Rotate a half turn.
pub fn rotate180(src: &RgbaImage) -> (out: RgbaImage)
    requires
        src.wf(),
    ensures
        is_oriented(out, *src, Orientation::Rotate180),
{
    orient(src, Orientation::Rotate180)
}

/// Rotate a quarter turn counter-clockwise.
pub fn rotate270(src: &RgbaImage) -> (out: RgbaImage)
    requires
        src.wf(),
    ensures
        is_oriented(out, *src, Orientation::Rotate270),
{
    orient(src, Orientation::Rotate270)
}

/// Applying a transform and then its inverse gives back the image it started from: flipping
/// twice, turning clockwise then counter-clockwise (or the reverse), or turning a half turn
/// twice.
pub proof fn lemma_inverse_restores(a: RgbaImage, b: RgbaImage, c: RgbaImage, o: Orientation)
    requires
        a.wf(),
        is_oriented(b, a, o),
        is_oriented(c, b, inverse(o)),
    ensures
        c.width == a.width,
        c.height == a.height,
        c.data@ == a.data@,
{
    let w = a.width as int;
    let h = a.height as int;
    assert forall|x: int, y: int, k: int| 0 <= x < c.width && 0 <= y < c.height && 0 <= k < 4 implies
        #[trigger] c.at(x, y, k) == a.at(x, y, k) by {
        let bx = source_x(inverse(o), b.width as int, b.height as int, x, y);
        let by = source_y(inverse(o), b.width as int, b.height as int, x, y);
        assert(c.at(x, y, k) == b.at(bx, by, k));
        assert(b.at(bx, by, k) == a.at(source_x(o, w, h, bx, by), source_y(o, w, h, bx, by), k));
    }
    lemma_same_pixels_same_data(c, a);
}

/// Two clockwise quarter turns equal one half turn.
pub proof fn lemma_two_quarter_turns(a: RgbaImage, b: RgbaImage, c: RgbaImage, d: RgbaImage)
    requires
        a.wf(),
        is_oriented(b, a, Orientation::Rotate90),
        is_oriented(c, b, Orientation::Rotate90),
        is_oriented(d, a, Orientation::Rotate180),
    ensures
        c.width == d.width,
        c.height == d.height,
        c.data@ == d.data@,
{
    let w = a.width as int;
    let h = a.height as int;
    assert forall|x: int, y: int, k: int| 0 <= x < c.width && 0 <= y < c.height && 0 <= k < 4 implies
        #[trigger] c.at(x, y, k) == d.at(x, y, k) by {
        assert(c.at(x, y, k) == b.at(y, w - 1 - x, k));
        assert(b.at(y, w - 1 - x, k) == a.at(w - 1 - x, h - 1 - y, k));
        assert(d.at(x, y, k) == a.at(w - 1 - x, h - 1 - y, k));
    }
    lemma_same_pixels_same_data(c, d);
}

/// `new` is `old` with the pixels of every layer transformed by `o`, all else kept.
pub open spec fn layers_oriented(old: Seq<Layer>, new: Seq<Layer>, o: Orientation) -> bool {
    &&& new.len() == old.len()
    &&& forall|i: int| 0 <= i < old.len() ==> #[trigger] new[i] == old[i].with_pixels(new[i].pixels)
    &&& forall|i: int| 0 <= i < old.len() ==> is_oriented(#[trigger] new[i].pixels, old[i].pixels, o)
}

/// Transform the pixels of every layer.
fn orient_layers(layers: &mut Vec<Layer>, o: Orientation)
    requires
        forall|i: int| 0 <= i < old(layers)@.len() ==> (#[trigger] old(layers)@[i]).pixels.wf(),
    ensures
        layers_oriented(old(layers)@, final(layers)@, o),
{
    let ghost orig = layers@;
    let n = layers.len();
    let mut i: usize = 0;
    while i < n
        invariant
            orig == old(layers)@,
            n == orig.len(),
            layers@.len() == n,
            i <= n,
            forall|j: int| 0 <= j < n ==> (#[trigger] orig[j]).pixels.wf(),
            forall|j: int| 0 <= j < i ==> #[trigger] layers@[j] == orig[j].with_pixels(layers@[j].pixels),
            forall|j: int| 0 <= j < i ==> is_oriented(#[trigger] layers@[j].pixels, orig[j].pixels, o),
            forall|j: int| i <= j < n ==> #[trigger] layers@[j] == orig[j],
        decreases n - i,
    {
        let mut layer = layers.remove(i);
        let px = orient(&layer.pixels, o);
        layer.pixels = px;
        layers.insert(i, layer);
        i += 1;
    }
}

/// Transform every layer of the canvas by `o`; a quarter turn also exchanges the canvas
/// width and height.
fn orient_canvas(state: &mut CanvasState, o: Orientation)
    requires
        old(state).wf(),
    ensures
        final(state).wf(),
        layers_oriented(old(state).layers@, final(state).layers@, o),
        final(state).width == oriented_width(o, old(state).width, old(state).height),
        final(state).height == oriented_height(o, old(state).width, old(state).height),
        final(state).active_layer_index == old(state).active_layer_index,
        final(state).selection_mask == old(state).selection_mask,
        final(state).dirty,
{
    let w = state.width;
    let h = state.height;
    proof {
        assert forall|i: int| 0 <= i < state.layers@.len() implies (#[trigger] state.layers@[i]).pixels.wf() by {
            assert(state.layers@[i].fits(w, h));
        }
    }
    orient_layers(&mut state.layers, o);
    match o {
        Orientation::Rotate90 | Orientation::Rotate270 => {
            state.width = h;
            state.height = w;
        },
        _ => {},
    }
    state.dirty = true;
    proof {
        assert forall|i: int| 0 <= i < state.layers@.len() implies #[trigger] state.layers@[i].fits(state.width, state.height) by {
            assert(is_oriented(state.layers@[i].pixels, old(state).layers@[i].pixels, o));
            assert(old(state).layers@[i].fits(w, h));
        }
        assert(state.width as int * state.height as int == w as int * h as int) by (nonlinear_arith)
            requires
                (state.width == w && state.height == h) || (state.width == h && state.height == w);
    }
}

/// Mirror every layer left and right.
pub fn flip_canvas_horizontal(state: &mut CanvasState)
    requires
        old(state).wf(),
    ensures
        final(state).wf(),
        layers_oriented(old(state).layers@, final(state).layers@, Orientation::FlipHorizontal),
        final(state).width == old(state).width,
        final(state).height == old(state).height,
        final(state).active_layer_index == old(state).active_layer_index,
        final(state).selection_mask == old(state).selection_mask,
        final(state).dirty,
{
    orient_canvas(state, Orientation::FlipHorizontal);
}

/// Mirror every layer top and bottom.
pub fn flip_canvas_vertical(state: &mut CanvasState)
    requires
        old(state).wf(),
    ensures
        final(state).wf(),
        layers_oriented(old(state).layers@, final(state).layers@, Orientation::FlipVertical),
        final(state).width == old(state).width,
        final(state).height == old(state).height,
        final(state).active_layer_index == old(state).active_layer_index,
        final(state).selection_mask == old(state).selection_mask,
        final(state).dirty,
{
    orient_canvas(state, Orientation::FlipVertical);
}

/// Rotate every layer a quarter turn clockwise; width and height are exchanged.
pub fn rotate_canvas_90cw(state: &mut CanvasState)
    requires
        old(state).wf(),
    ensures
        final(state).wf(),
        layers_oriented(old(state).layers@, final(state).layers@, Orientation::Rotate90),
        final(state).width == old(state).height,
        final(state).height == old(state).width,
        final(state).active_layer_index == old(state).active_layer_index,
        final(state).selection_mask == old(state).selection_mask,
        final(state).dirty,
{
    orient_canvas(state, Orientation::Rotate90);
}

/// Rotate every layer a quarter turn counter-clockwise; width and height are exchanged.
pub fn rotate_canvas_90ccw(state: &mut CanvasState)
    requires
        old(state).wf(),
    ensures
        final(state).wf(),
        layers_oriented(old(state).layers@, final(state).layers@, Orientation::Rotate270),
        final(state).width == old(state).height,
        final(state).height == old(state).width,
        final(state).active_layer_index == old(state).active_layer_index,
        final(state).selection_mask == old(state).selection_mask,
        final(state).dirty,
{
    orient_canvas(state, Orientation::Rotate270);
}

/// Rotate every layer a half turn.
pub fn rotate_canvas_180(state: &mut CanvasState)
    requires
        old(state).wf(),
    ensures
        final(state).wf(),
        layers_oriented(old(state).layers@, final(state).layers@, Orientation::Rotate180),
        final(state).width == old(state).width,
        final(state).height == old(state).height,
        final(state).active_layer_index == old(state).active_layer_index,
        final(state).selection_mask == old(state).selection_mask,
        final(state).dirty,
{
    orient_canvas(state, Orientation::Rotate180);
}

/// Transforming a canvas and then transforming the result by the inverse gives back every
/// layer's name, flags and pixels, and the canvas size.
pub proof fn lemma_canvas_inverse_restores(s0: CanvasState, s1: CanvasState, s2: CanvasState, o: Orientation)
    requires
        s0.wf(),
        layers_oriented(s0.layers@, s1.layers@, o),
        layers_oriented(s1.layers@, s2.layers@, inverse(o)),
        s1.width == oriented_width(o, s0.width, s0.height),
        s1.height == oriented_height(o, s0.width, s0.height),
        s2.width == oriented_width(inverse(o), s1.width, s1.height),
        s2.height == oriented_height(inverse(o), s1.width, s1.height),
    ensures
        s2.width == s0.width,
        s2.height == s0.height,
        s2.layers@.len() == s0.layers@.len(),
        forall|i: int| 0 <= i < s0.layers@.len() ==> {
            &&& (#[trigger] s2.layers@[i]).name == s0.layers@[i].name
            &&& s2.layers@[i].visible == s0.layers@[i].visible
            &&& s2.layers@[i].opacity == s0.layers@[i].opacity
            &&& s2.layers@[i].content == s0.layers@[i].content
            &&& s2.layers@[i].pixels.width == s0.layers@[i].pixels.width
            &&& s2.layers@[i].pixels.height == s0.layers@[i].pixels.height
            &&& s2.layers@[i].pixels.data@ == s0.layers@[i].pixels.data@
        },
{
    assert forall|i: int| 0 <= i < s0.layers@.len() implies {
        &&& (#[trigger] s2.layers@[i]).name == s0.layers@[i].name
        &&& s2.layers@[i].visible == s0.layers@[i].visible
        &&& s2.layers@[i].opacity == s0.layers@[i].opacity
        &&& s2.layers@[i].content == s0.layers@[i].content
        &&& s2.layers@[i].pixels.width == s0.layers@[i].pixels.width
        &&& s2.layers@[i].pixels.height == s0.layers@[i].pixels.height
        &&& s2.layers@[i].pixels.data@ == s0.layers@[i].pixels.data@
    } by {
        assert(s0.layers@[i].fits(s0.width, s0.height));
        assert(s1.layers@[i] == s0.layers@[i].with_pixels(s1.layers@[i].pixels));
        assert(s2.layers@[i] == s1.layers@[i].with_pixels(s2.layers@[i].pixels));
        assert(is_oriented(s1.layers@[i].pixels, s0.layers@[i].pixels, o));
        assert(is_oriented(s2.layers@[i].pixels, s1.layers@[i].pixels, inverse(o)));
        lemma_inverse_restores(s0.layers@[i].pixels, s1.layers@[i].pixels, s2.layers@[i].pixels, o);
    }
}

/// Transform one layer in place; every other part of the canvas is kept.
fn orient_one_layer(state: &mut CanvasState, layer_idx: usize, o: Orientation)
    requires
        old(state).wf(),
        layer_idx < old(state).layers@.len(),
        !swaps_axes(o),
    ensures
        final(state).wf(),
        final(state).layers@ == old(state).layers@.update(layer_idx as int, old(state).layers@[layer_idx as int].with_pixels(final(state).layers@[layer_idx as int].pixels)),
        is_oriented(final(state).layers@[layer_idx as int].pixels, old(state).layers@[layer_idx as int].pixels, o),
        final(state).width == old(state).width,
        final(state).height == old(state).height,
        final(state).active_layer_index == old(state).active_layer_index,
        final(state).selection_mask == old(state).selection_mask,
        final(state).dirty == old(state).dirty,
{
    proof {
        assert(state.layers@[layer_idx as int].fits(state.width, state.height));
    }
    let mut layer = state.layers.remove(layer_idx);
    let px = orient(&layer.pixels, o);
    layer.pixels = px;
    state.layers.insert(layer_idx, layer);
    proof {
        assert(state.layers@ =~= old(state).layers@.update(layer_idx as int, old(state).layers@[layer_idx as int].with_pixels(px)));
        assert forall|i: int| 0 <= i < state.layers@.len() implies #[trigger] state.layers@[i].fits(state.width, state.height) by {
            assert(old(state).layers@[i].fits(state.width, state.height));
        }
    }
}

/// Mirror one layer left and right (nothing when the index names no layer); the canvas is
/// marked for redraw either way.
pub fn flip_layer_horizontal(state: &mut CanvasState, layer_idx: usize)
    requires
        old(state).wf(),
    ensures
        final(state).wf(),
        layer_idx >= old(state).layers@.len() ==> final(state).layers@ == old(state).layers@,
        layer_idx < old(state).layers@.len() ==> {
            &&& final(state).layers@ == old(state).layers@.update(layer_idx as int, old(state).layers@[layer_idx as int].with_pixels(final(state).layers@[layer_idx as int].pixels))
            &&& is_oriented(final(state).layers@[layer_idx as int].pixels, old(state).layers@[layer_idx as int].pixels, Orientation::FlipHorizontal)
        },
        final(state).width == old(state).width,
        final(state).height == old(state).height,
        final(state).active_layer_index == old(state).active_layer_index,
        final(state).selection_mask == old(state).selection_mask,
        final(state).dirty,
{
    if layer_idx < state.layers.len() {
        orient_one_layer(state, layer_idx, Orientation::FlipHorizontal);
    }
    state.dirty = true;
}

/// Mirror one layer top and bottom (nothing when the index names no layer); the canvas is
/// marked for redraw either way.
pub fn flip_layer_vertical(state: &mut CanvasState, layer_idx: usize)
    requires
        old(state).wf(),
    ensures
        final(state).wf(),
        layer_idx >= old(state).layers@.len() ==> final(state).layers@ == old(state).layers@,
        layer_idx < old(state).layers@.len() ==> {
            &&& final(state).layers@ == old(state).layers@.update(layer_idx as int, old(state).layers@[layer_idx as int].with_pixels(final(state).layers@[layer_idx as int].pixels))
            &&& is_oriented(final(state).layers@[layer_idx as int].pixels, old(state).layers@[layer_idx as int].pixels, Orientation::FlipVertical)
        },
        final(state).width == old(state).width,
        final(state).height == old(state).height,
        final(state).active_layer_index == old(state).active_layer_index,
        final(state).selection_mask == old(state).selection_mask,
        final(state).dirty,
{
    if layer_idx < state.layers.len() {
        orient_one_layer(state, layer_idx, Orientation::FlipVertical);
    }
    state.dirty = true;
}


/// Offset along one axis at which a canvas resized from `old` to `new` pixels places the old
/// content: at the start (anchor 0), centred (anchor 1, half the difference rounded toward
/// zero) or at the end (any other anchor).
pub open spec fn anchor_offset(a: u32, new: u32, old: u32) -> int {
    let d = new as int - old as int;
    if a == 0 {
        0
    } else if a == 1 {
        if d >= 0 { d / 2 } else { -((-d) / 2) }
    } else {
        d
    }
}

/// Exec form of `anchor_offset`.
pub fn anchor_offset_exec(a: u32, new: u32, old: u32) -> (r: i64)
    ensures
        r == anchor_offset(a, new, old),
{
    let d = new as i64 - old as i64;
    if a == 0 {
        0
    } else if a == 1 {
        if d >= 0 { d / 2 } else { -((-d) / 2) }
    } else {
        d
    }
}

/// Channel `c` of pixel `(x, y)` of a canvas into which the `rw` by `rh` top-left region of
/// `src` is placed at offset `(ox, oy)`; uncovered pixels take `fill`.
pub open spec fn padded_at(src: RgbaImage, rw: int, rh: int, ox: int, oy: int, fill: [u8; 4], x: int, y: int, c: int) -> u8 {
    let sx = x - ox;
    let sy = y - oy;
    if 0 <= sx < rw && 0 <= sy < rh { src.at(sx, sy, c) } else { fill@[c] }
}

/// The row-major RGBA buffer `out` is a `new_w` by `new_h` canvas holding, at `(ox, oy)`,
/// the `rw` by `rh` top-left region of the buffer `src` of width `sw`; the rest is `fill`.
pub open spec fn padded_data(out: Seq<u8>, src: Seq<u8>, sw: int, rw: int, rh: int, new_w: u32, new_h: u32, ox: int, oy: int, fill: [u8; 4]) -> bool {
    &&& out.len() == new_w as int * new_h as int * 4
    &&& forall|x: int, y: int, c: int|
        0 <= x < new_w && 0 <= y < new_h && 0 <= c < 4 ==> #[trigger] out[pix_idx(new_w as int, x, y, c)] == (
            if 0 <= x - ox < rw && 0 <= y - oy < rh { src[pix_idx(sw, x - ox, y - oy, c)] } else { fill@[c] })
}

/// `out` is a `new_w` by `new_h` canvas holding the `rw` by `rh` region of `src` at `(ox, oy)`.
pub open spec fn is_padded(out: RgbaImage, src: RgbaImage, rw: int, rh: int, new_w: u32, new_h: u32, ox: int, oy: int, fill: [u8; 4]) -> bool {
    &&& out.width == new_w
    &&& out.height == new_h
    &&& padded_data(out.data@, src.data@, src.width as int, rw, rh, new_w, new_h, ox, oy, fill)
}

/// Place the `rw` by `rh` top-left region of `src` at `(ox, oy)` on a `new_w` by `new_h`
/// canvas filled with `fill`; pixels falling outside the canvas are dropped.
pub fn pad_region(src: &RgbaImage, rw: u32, rh: u32, new_w: u32, new_h: u32, ox: i64, oy: i64, fill: [u8; 4]) -> (out: RgbaImage)
    requires
        src.wf(),
        rw <= src.width,
        rh <= src.height,
        new_w as int * new_h as int * 4 <= usize::MAX,
        -0x1_0000_0000 <= ox <= 0x1_0000_0000,
        -0x1_0000_0000 <= oy <= 0x1_0000_0000,
    ensures
        is_padded(out, *src, rw as int, rh as int, new_w, new_h, ox as int, oy as int, fill),
{
    let nwu = new_w as usize;
    let nhu = new_h as usize;
    let ghost wi = new_w as int;
    let ghost f = |x: int, y: int, c: int| padded_at(*src, rw as int, rh as int, ox as int, oy as int, fill, x, y, c);
    let mut out: Vec<u8> = Vec::new();
    let mut y: usize = 0;
    while y < nhu
        invariant
            src.wf(),
            rw <= src.width,
            rh <= src.height,
            nwu == new_w,
            nhu == new_h,
            wi == new_w as int,
            -0x1_0000_0000 <= ox <= 0x1_0000_0000,
            -0x1_0000_0000 <= oy <= 0x1_0000_0000,
            f == (|x: int, y: int, c: int| padded_at(*src, rw as int, rh as int, ox as int, oy as int, fill, x, y, c)),
            y <= nhu,
            out@.len() == (y * wi) * 4,
            prefix_matches(out@, wi, y * wi, f),
        decreases nhu - y,
    {
        let mut x: usize = 0;
        while x < nwu
            invariant
                src.wf(),
                rw <= src.width,
                rh <= src.height,
                nwu == new_w,
                nhu == new_h,
                wi == new_w as int,
                -0x1_0000_0000 <= ox <= 0x1_0000_0000,
                -0x1_0000_0000 <= oy <= 0x1_0000_0000,
                f == (|x: int, y: int, c: int| padded_at(*src, rw as int, rh as int, ox as int, oy as int, fill, x, y, c)),
                y < nhu,
                x <= nwu,
                out@.len() == (y * wi + x) * 4,
                prefix_matches(out@, wi, y * wi + x, f),
            decreases nwu - x,
        {
            let sx = x as i64 - ox;
            let sy = y as i64 - oy;
            if 0 <= sx && sx < rw as i64 && 0 <= sy && sy < rh as i64 {
                let (c0, c1, c2, c3) = get_px(src, sx as usize, sy as usize);
                push_pixel(&mut out, c0, c1, c2, c3, Ghost(wi), Ghost(x as int), Ghost(y as int), Ghost(f));
            } else {
                push_pixel(&mut out, fill[0], fill[1], fill[2], fill[3], Ghost(wi), Ghost(x as int), Ghost(y as int), Ghost(f));
            }
            x += 1;
        }
        proof {
            lemma_row_step(wi, y as int);
        }
        y += 1;
    }
    proof {
        lemma_prefix_complete(out@, wi, new_h as int, f);
    }
    RgbaImage { width: new_w, height: new_h, data: out }
}

/// Sizes that fit in `i32`, so that the signed offsets of a canvas resize stay in range.
pub open spec fn offset_safe(old_w: u32, old_h: u32, new_w: u32, new_h: u32) -> bool {
    &&& old_w <= i32::MAX
    &&& old_h <= i32::MAX
    &&& new_w <= i32::MAX
    &&& new_h <= i32::MAX
}

/// Every image of `imgs` holds at least `w` by `h` pixels.
pub open spec fn all_cover(imgs: Seq<RgbaImage>, w: u32, h: u32) -> bool {
    forall|i: int| 0 <= i < imgs.len() ==> (#[trigger] imgs[i]).wf() && imgs[i].width >= w && imgs[i].height >= h
}

/// Move each of the `old_w` by `old_h` images onto a `new_w` by `new_h` canvas filled with
/// `fill`, the old content placed at `anchor` (column, row; 0 start, 1 centre, 2 end).
pub fn resize_canvas_layers(
    flat_layers: Vec<RgbaImage>,
    old_w: u32,
    old_h: u32,
    new_w: u32,
    new_h: u32,
    anchor: (u32, u32),
    fill: [u8; 4],
) -> (out: Vec<RgbaImage>)
    requires
        all_cover(flat_layers@, old_w, old_h),
        offset_safe(old_w, old_h, new_w, new_h),
        new_w as int * new_h as int * 4 <= usize::MAX,
    ensures
        out@.len() == flat_layers@.len(),
        forall|i: int| 0 <= i < out@.len() ==> is_padded(#[trigger] out@[i], flat_layers@[i], old_w as int, old_h as int, new_w, new_h,
            anchor_offset(anchor.0, new_w, old_w), anchor_offset(anchor.1, new_h, old_h), fill),
{
    let ox = anchor_offset_exec(anchor.0, new_w, old_w);
    let oy = anchor_offset_exec(anchor.1, new_h, old_h);
    let mut out: Vec<RgbaImage> = Vec::new();
    let mut i: usize = 0;
    while i < flat_layers.len()
        invariant
            all_cover(flat_layers@, old_w, old_h),
            offset_safe(old_w, old_h, new_w, new_h),
            new_w as int * new_h as int * 4 <= usize::MAX,
            ox == anchor_offset(anchor.0, new_w, old_w),
            oy == anchor_offset(anchor.1, new_h, old_h),
            i <= flat_layers@.len(),
            out@.len() == i,
            forall|j: int| 0 <= j < i ==> is_padded(#[trigger] out@[j], flat_layers@[j], old_w as int, old_h as int, new_w, new_h, ox as int, oy as int, fill),
        decreases flat_layers@.len() - i,
    {
        proof {
            assert(flat_layers@[i as int].wf());
        }
        let img = pad_region(&flat_layers[i], old_w, old_h, new_w, new_h, ox, oy, fill);
        out.push(img);
        i += 1;
    }
    out
}

/// `new` is `old` with the pixels of every layer replaced and all else kept.
pub open spec fn layers_repixeled(old: Seq<Layer>, new: Seq<Layer>) -> bool {
    &&& new.len() == old.len()
    &&& forall|i: int| 0 <= i < old.len() ==> #[trigger] new[i] == old[i].with_pixels(new[i].pixels)
}

/// Change the canvas size to `new_w` by `new_h`, placing the old content of every layer at
/// `anchor` (column, row; 0 start, 1 centre, 2 end) and filling new space with `fill`.
pub fn resize_canvas(state: &mut CanvasState, new_w: u32, new_h: u32, anchor: (u32, u32), fill: [u8; 4])
    requires
        old(state).wf(),
        offset_safe(old(state).width, old(state).height, new_w, new_h),
        new_w as int * new_h as int * 4 <= usize::MAX,
    ensures
        final(state).wf(),
        final(state).width == new_w,
        final(state).height == new_h,
        layers_repixeled(old(state).layers@, final(state).layers@),
        forall|i: int| 0 <= i < old(state).layers@.len() ==> is_padded(
            #[trigger] final(state).layers@[i].pixels, old(state).layers@[i].pixels,
            old(state).width as int, old(state).height as int, new_w, new_h,
            anchor_offset(anchor.0, new_w, old(state).width), anchor_offset(anchor.1, new_h, old(state).height), fill),
        final(state).active_layer_index == old(state).active_layer_index,
        final(state).selection_mask == old(state).selection_mask,
        final(state).dirty,
{
    let old_w = state.width;
    let old_h = state.height;
    let ox = anchor_offset_exec(anchor.0, new_w, old_w);
    let oy = anchor_offset_exec(anchor.1, new_h, old_h);
    let ghost orig = state.layers@;
    let n = state.layers.len();
    let mut i: usize = 0;
    while i < n
        invariant
            orig == old(state).layers@,
            old(state).wf(),
            old_w == old(state).width,
            old_h == old(state).height,
            offset_safe(old_w, old_h, new_w, new_h),
            new_w as int * new_h as int * 4 <= usize::MAX,
            ox == anchor_offset(anchor.0, new_w, old_w),
            oy == anchor_offset(anchor.1, new_h, old_h),
            n == orig.len(),
            state.layers@.len() == n,
            state.width == old_w,
            state.height == old_h,
            state.active_layer_index == old(state).active_layer_index,
            state.selection_mask == old(state).selection_mask,
            i <= n,
            forall|j: int| 0 <= j < i ==> #[trigger] state.layers@[j] == orig[j].with_pixels(state.layers@[j].pixels),
            forall|j: int| 0 <= j < i ==> is_padded(#[trigger] state.layers@[j].pixels, orig[j].pixels,
                old_w as int, old_h as int, new_w, new_h, ox as int, oy as int, fill),
            forall|j: int| i <= j < n ==> #[trigger] state.layers@[j] == orig[j],
        decreases n - i,
    {
        proof {
            assert(orig[i as int].fits(old_w, old_h));
        }
        let mut layer = state.layers.remove(i);
        let px = pad_region(&layer.pixels, old_w, old_h, new_w, new_h, ox, oy, fill);
        layer.pixels = px;
        state.layers.insert(i, layer);
        i += 1;
    }
    state.width = new_w;
    state.height = new_h;
    state.dirty = true;
    proof {
        assert forall|j: int| 0 <= j < state.layers@.len() implies #[trigger] state.layers@[j].fits(state.width, state.height) by {
            assert(is_padded(state.layers@[j].pixels, orig[j].pixels, old_w as int, old_h as int, new_w, new_h, ox as int, oy as int, fill));
        }
    }
}

/// Resizing the canvas to its own size, at any anchor and with any fill, changes no pixel.
pub proof fn lemma_resize_canvas_same_size(out: RgbaImage, src: RgbaImage, anchor: (u32, u32), fill: [u8; 4])
    requires
        src.wf(),
        is_padded(out, src, src.width as int, src.height as int, src.width, src.height,
            anchor_offset(anchor.0, src.width, src.width), anchor_offset(anchor.1, src.height, src.height), fill),
    ensures
        out.width == src.width,
        out.height == src.height,
        out.data@ == src.data@,
{
    assert(anchor_offset(anchor.0, src.width, src.width) == 0);
    assert(anchor_offset(anchor.1, src.height, src.height) == 0);
    crate::raster::lemma_pixelwise_equal(out.data@, src.data@, src.width as int, src.height as int);
}

/// The offset of an enlargement lies within the added space, and shrinking back with the
/// same anchor uses its negation.
proof fn lemma_anchor_offsets_cancel(a: u32, small: u32, large: u32)
    requires
        small <= large,
    ensures
        0 <= anchor_offset(a, large, small) <= large - small,
        anchor_offset(a, small, large) == -anchor_offset(a, large, small),
{
}

/// Growing a layer's canvas and then shrinking it back to its size, with the same anchor and
/// any fills, gives back the layer's pixels.
pub proof fn lemma_grow_then_shrink_restores(
    src: RgbaImage,
    mid: RgbaImage,
    out: RgbaImage,
    new_w: u32,
    new_h: u32,
    anchor: (u32, u32),
    fill_grow: [u8; 4],
    fill_shrink: [u8; 4],
)
    requires
        src.wf(),
        src.width <= new_w,
        src.height <= new_h,
        is_padded(mid, src, src.width as int, src.height as int, new_w, new_h,
            anchor_offset(anchor.0, new_w, src.width), anchor_offset(anchor.1, new_h, src.height), fill_grow),
        is_padded(out, mid, new_w as int, new_h as int, src.width, src.height,
            anchor_offset(anchor.0, src.width, new_w), anchor_offset(anchor.1, src.height, new_h), fill_shrink),
    ensures
        out.width == src.width,
        out.height == src.height,
        out.data@ == src.data@,
{
    let w = src.width as int;
    let h = src.height as int;
    let ox = anchor_offset(anchor.0, new_w, src.width);
    let oy = anchor_offset(anchor.1, new_h, src.height);
    lemma_anchor_offsets_cancel(anchor.0, src.width, new_w);
    lemma_anchor_offsets_cancel(anchor.1, src.height, new_h);
    assert forall|x: int, y: int, c: int| 0 <= x < w && 0 <= y < h && 0 <= c < 4 implies
        #[trigger] out.data@[pix_idx(w, x, y, c)] == src.data@[pix_idx(w, x, y, c)] by {
        assert(out.data@[pix_idx(w, x, y, c)] == mid.data@[pix_idx(new_w as int, x + ox, y + oy, c)]);
        assert(mid.data@[pix_idx(new_w as int, x + ox, y + oy, c)] == src.data@[pix_idx(w, x + ox - ox, y + oy - oy, c)]);
    }
    crate::raster::lemma_pixelwise_equal(out.data@, src.data@, w, h);
}

/// Name for the pixels that `image::imageops::resize` produces when it resamples the
/// `w` by `h` RGBA buffer `pixels` to `new_w` by `new_h` with `filter`. The contract of
/// `resample` applies it only to the filters of `filter_reproducible`.
pub uninterp spec fn resampled(pixels: Seq<u8>, w: u32, h: u32, new_w: u32, new_h: u32, filter: ScriptFilterType) -> Seq<u8>;

/// Filters whose kernels (`box_kernel`, `triangle_kernel`) use only `+ - * /` and
/// comparisons on `f32`, so that the resampled bytes are a function of the inputs. The
/// cubic and Lanczos kernels call `f32::powi` and `f32::sin`, whose precision std leaves
/// to the platform.
pub open spec fn filter_reproducible(filter: ScriptFilterType) -> bool {
    filter is Nearest || filter is Bilinear
}

/// What holds of every buffer `out` that resampling the `w` by `h` buffer `pixels` to
/// `new_w` by `new_h` with `filter` can give: it has the new size, it is all zero when the
/// source is empty, it is the source itself when the size does not change, and it is
/// `resampled(..)` when the filter is reproducible.
pub open spec fn resample_outcome(out: Seq<u8>, pixels: Seq<u8>, w: u32, h: u32, new_w: u32, new_h: u32, filter: ScriptFilterType) -> bool {
    &&& out.len() == new_w as int * new_h as int * 4
    &&& (w == 0 || h == 0) ==> forall|i: int| 0 <= i < out.len() ==> out[i] == 0
    &&& (w > 0 && h > 0 && new_w == w && new_h == h) ==> out == pixels
    &&& filter_reproducible(filter) ==> out == resampled(pixels, w, h, new_w, new_h, filter)
}

/// `image::imageops::resize` on a row-major RGBA buffer, with `Nearest`, `Triangle`,
/// `CatmullRom` or `Lanczos3` sampling. Claimed, as its source shows: the result is
/// `new_w` by `new_h`; it is all zero when the source is empty, and an exact copy when the
/// size does not change. The bytes are named by `resampled` only for the `Nearest` and
/// `Triangle` filters; of the other two nothing more is stated, since their kernels go
/// through `f32::powi` and `f32::sin`, whose results may differ between platforms.
#[verifier::external_body]
fn resample(pixels: &Vec<u8>, w: u32, h: u32, new_w: u32, new_h: u32, filter: ScriptFilterType) -> (r: Vec<u8>)
    requires
        pixels@.len() == w as int * h as int * 4,
        new_w as int * new_h as int * 4 <= usize::MAX,
        w as int * new_h as int * 4 <= usize::MAX,
    ensures
        filter_reproducible(filter) ==> r@ == resampled(pixels@, w, h, new_w, new_h, filter),
        r@.len() == new_w as int * new_h as int * 4,
        (w == 0 || h == 0) ==> forall|i: int| 0 <= i < r@.len() ==> r@[i] == 0,
        (w > 0 && h > 0 && new_w == w && new_h == h) ==> r@ == pixels@,
{
    let img = image::RgbaImage::from_raw(w, h, pixels.clone()).unwrap();
    let f = match filter {
        ScriptFilterType::Nearest => image::imageops::FilterType::Nearest,
        ScriptFilterType::Bilinear => image::imageops::FilterType::Triangle,
        ScriptFilterType::Bicubic => image::imageops::FilterType::CatmullRom,
        ScriptFilterType::Lanczos => image::imageops::FilterType::Lanczos3,
    };
    image::imageops::resize(&img, new_w, new_h, f).into_raw()
}

/// Resample `src` to `new_w` by `new_h`.
pub fn resize_rgba(src: &RgbaImage, new_w: u32, new_h: u32, filter: ScriptFilterType) -> (out: RgbaImage)
    requires
        src.wf(),
        new_w as int * new_h as int * 4 <= usize::MAX,
        src.width as int * new_h as int * 4 <= usize::MAX,
    ensures
        out.wf(),
        out.width == new_w,
        out.height == new_h,
        resample_outcome(out.data@, src.data@, src.width, src.height, new_w, new_h, filter),
{
    let data = resample(&src.data, src.width, src.height, new_w, new_h, filter);
    RgbaImage { width: new_w, height: new_h, data }
}

/// Interpolation used when the user resizes the image.
#[derive(Clone, Copy, Debug, PartialEq, Eq, Structural)]
pub enum Interpolation {
    Nearest,
    Bilinear,
    Bicubic,
    Lanczos3,
}

/// The resampling filter an interpolation uses.
pub open spec fn filter_of(i: Interpolation) -> ScriptFilterType {
    match i {
        Interpolation::Nearest => ScriptFilterType::Nearest,
        Interpolation::Bilinear => ScriptFilterType::Bilinear,
        Interpolation::Bicubic => ScriptFilterType::Bicubic,
        Interpolation::Lanczos3 => ScriptFilterType::Lanczos,
    }
}

impl Default for Interpolation {
    /// Bilinear.
    fn default() -> (r: Interpolation)
        ensures
            r == Interpolation::Bilinear,
    {
        Interpolation::Bilinear
    }
}

impl Interpolation {
    /// The key under which the translated name of this interpolation is looked up.
    pub fn label(&self) -> (s: String)
        ensures
            s@ == (match *self {
                Interpolation::Nearest => "interpolation.nearest"@,
                Interpolation::Bilinear => "interpolation.bilinear"@,
                Interpolation::Bicubic => "interpolation.bicubic"@,
                Interpolation::Lanczos3 => "interpolation.lanczos3"@,
            }),
    {
        match self {
            Interpolation::Nearest => String::from_str("interpolation.nearest"),
            Interpolation::Bilinear => String::from_str("interpolation.bilinear"),
            Interpolation::Bicubic => String::from_str("interpolation.bicubic"),
            Interpolation::Lanczos3 => String::from_str("interpolation.lanczos3"),
        }
    }

    /// Every interpolation, in menu order.
    pub fn all() -> (r: &'static [Interpolation])
        ensures
            r@ == seq![Interpolation::Nearest, Interpolation::Bilinear, Interpolation::Bicubic, Interpolation::Lanczos3],
    {
        &[Interpolation::Nearest, Interpolation::Bilinear, Interpolation::Bicubic, Interpolation::Lanczos3]
    }

    /// The resampling filter this interpolation uses.
    pub fn to_filter(self) -> (f: ScriptFilterType)
        ensures
            f == filter_of(self),
    {
        match self {
            Interpolation::Nearest => ScriptFilterType::Nearest,
            Interpolation::Bilinear => ScriptFilterType::Bilinear,
            Interpolation::Bicubic => ScriptFilterType::Bicubic,
            Interpolation::Lanczos3 => ScriptFilterType::Lanczos,
        }
    }
}

/// Resample each image to `new_w` by `new_h`.
pub fn resize_layers(flat_layers: Vec<RgbaImage>, new_w: u32, new_h: u32, interp: Interpolation) -> (out: Vec<RgbaImage>)
    requires
        forall|i: int| 0 <= i < flat_layers@.len() ==> (#[trigger] flat_layers@[i]).wf()
            && flat_layers@[i].width as int * new_h as int * 4 <= usize::MAX,
        new_w as int * new_h as int * 4 <= usize::MAX,
    ensures
        out@.len() == flat_layers@.len(),
        forall|i: int| 0 <= i < out@.len() ==> {
            &&& (#[trigger] out@[i]).wf()
            &&& out@[i].width == new_w
            &&& out@[i].height == new_h
            &&& resample_outcome(out@[i].data@, flat_layers@[i].data@, flat_layers@[i].width, flat_layers@[i].height, new_w, new_h, filter_of(interp))
        },
{
    let filter = interp.to_filter();
    let mut out: Vec<RgbaImage> = Vec::new();
    let mut i: usize = 0;
    while i < flat_layers.len()
        invariant
            forall|j: int| 0 <= j < flat_layers@.len() ==> (#[trigger] flat_layers@[j]).wf()
                && flat_layers@[j].width as int * new_h as int * 4 <= usize::MAX,
            new_w as int * new_h as int * 4 <= usize::MAX,
            filter == filter_of(interp),
            i <= flat_layers@.len(),
            out@.len() == i,
            forall|j: int| 0 <= j < i ==> {
                &&& (#[trigger] out@[j]).wf()
                &&& out@[j].width == new_w
                &&& out@[j].height == new_h
                &&& resample_outcome(out@[j].data@, flat_layers@[j].data@, flat_layers@[j].width, flat_layers@[j].height, new_w, new_h, filter)
            },
        decreases flat_layers@.len() - i,
    {
        proof {
            assert(flat_layers@[i as int].wf());
        }
        let img = resize_rgba(&flat_layers[i], new_w, new_h, filter);
        out.push(img);
        i += 1;
    }
    out
}

/// Resample every layer to `new_w` by `new_h` and make that the canvas size.
pub fn resize_image(state: &mut CanvasState, new_w: u32, new_h: u32, interp: Interpolation)
    requires
        old(state).wf(),
        new_w as int * new_h as int * 4 <= usize::MAX,
        old(state).width as int * new_h as int * 4 <= usize::MAX,
    ensures
        final(state).wf(),
        final(state).width == new_w,
        final(state).height == new_h,
        layers_repixeled(old(state).layers@, final(state).layers@),
        forall|i: int| 0 <= i < old(state).layers@.len() ==> resample_outcome((#[trigger] final(state).layers@[i]).pixels.data@,
            old(state).layers@[i].pixels.data@, old(state).width, old(state).height, new_w, new_h, filter_of(interp)),
        final(state).active_layer_index == old(state).active_layer_index,
        final(state).selection_mask == old(state).selection_mask,
        final(state).dirty,
{
    let filter = interp.to_filter();
    let old_w = state.width;
    let old_h = state.height;
    let ghost orig = state.layers@;
    let n = state.layers.len();
    let mut i: usize = 0;
    while i < n
        invariant
            orig == old(state).layers@,
            old(state).wf(),
            old_w == old(state).width,
            old_h == old(state).height,
            filter == filter_of(interp),
            new_w as int * new_h as int * 4 <= usize::MAX,
            old_w as int * new_h as int * 4 <= usize::MAX,
            n == orig.len(),
            state.layers@.len() == n,
            state.width == old_w,
            state.height == old_h,
            state.active_layer_index == old(state).active_layer_index,
            state.selection_mask == old(state).selection_mask,
            i <= n,
            forall|j: int| 0 <= j < i ==> #[trigger] state.layers@[j] == orig[j].with_pixels(state.layers@[j].pixels),
            forall|j: int| 0 <= j < i ==> {
                &&& (#[trigger] state.layers@[j]).pixels.wf()
                &&& state.layers@[j].pixels.width == new_w
                &&& state.layers@[j].pixels.height == new_h
                &&& resample_outcome(state.layers@[j].pixels.data@, orig[j].pixels.data@, old_w, old_h, new_w, new_h, filter)
            },
            forall|j: int| i <= j < n ==> #[trigger] state.layers@[j] == orig[j],
        decreases n - i,
    {
        proof {
            assert(orig[i as int].fits(old_w, old_h));
        }
        let mut layer = state.layers.remove(i);
        let px = resize_rgba(&layer.pixels, new_w, new_h, filter);
        layer.pixels = px;
        state.layers.insert(i, layer);
        i += 1;
    }
    state.width = new_w;
    state.height = new_h;
    state.dirty = true;
    proof {
        assert forall|j: int| 0 <= j < state.layers@.len() implies #[trigger] state.layers@[j].fits(state.width, state.height) by {
            assert(state.layers@[j].pixels.wf());
        }
    }
}

} // verus!

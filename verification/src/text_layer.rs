//! Text-layer data that is independent of glyph rendering: selection positions, effect
//! enums, and the RGBA buffer helpers used when text is composited onto a layer.
use vstd::prelude::*;
use crate::raster::{RgbaImage, pix_idx, lemma_pix_idx_bounds, lemma_linear_pos_unique, prefix_matches, push_pixel, lemma_prefix_complete, lemma_row_step};

verus! {

/// Paragraph alignment of a text block.
#[derive(Clone, Copy, Debug, PartialEq, Eq, Structural)]
pub enum TextAlignment {
    Left,
    Center,
    Right,
}

/// Where a text outline is drawn relative to the glyph edge.
#[derive(Clone, Copy, Debug, PartialEq, Eq, Structural)]
pub enum OutlinePosition {
    Inside,
    Outside,
    Center,
}

/// The kind of geometric warp applied to a text block (its parameters live with the
/// caller).
#[derive(Clone, Copy, Debug, PartialEq, Eq, Structural)]
pub enum TextWarpKind {
    /// No warp.
    NoWarp,
    Arc,
    Circular,
    PathFollow,
    Envelope,
}

impl Default for TextWarpKind {
    /// No warp.
    fn default() -> (r: TextWarpKind)
        ensures
            r == TextWarpKind::NoWarp,
    {
        TextWarpKind::NoWarp
    }
}

/// Display name of a warp kind.
pub open spec fn warp_name(k: TextWarpKind) -> Seq<char> {
    match k {
        TextWarpKind::NoWarp => "None"@,
        TextWarpKind::Arc => "Arc"@,
        TextWarpKind::Circular => "Circular"@,
        TextWarpKind::PathFollow => "Path Follow"@,
        TextWarpKind::Envelope => "Envelope"@,
    }
}

/// The warp kind a display name selects; unknown names select no warp.
pub open spec fn warp_named(name: Seq<char>) -> TextWarpKind {
    if name == "Arc"@ {
        TextWarpKind::Arc
    } else if name == "Circular"@ {
        TextWarpKind::Circular
    } else if name == "Path Follow"@ {
        TextWarpKind::PathFollow
    } else if name == "Envelope"@ {
        TextWarpKind::Envelope
    } else {
        TextWarpKind::NoWarp
    }
}

impl TextWarpKind {
    /// The display name of this warp kind.
    pub fn name(&self) -> (s: &'static str)
        ensures
            s@ == warp_name(*self),
    {
        match self {
            TextWarpKind::NoWarp => "None",
            TextWarpKind::Arc => "Arc",
            TextWarpKind::Circular => "Circular",
            TextWarpKind::PathFollow => "Path Follow",
            TextWarpKind::Envelope => "Envelope",
        }
    }

    /// The names of all warp kinds, in menu order.
    pub fn all_names() -> (v: &'static [&'static str])
        ensures
            v@.len() == 5,
            forall|i: int| 0 <= i < 5 ==> #[trigger] v@[i]@ == warp_name(
                if i == 0 { TextWarpKind::NoWarp } else if i == 1 { TextWarpKind::Arc } else if i == 2 {
                    TextWarpKind::Circular } else if i == 3 { TextWarpKind::PathFollow } else { TextWarpKind::Envelope }),
    {
        &["None", "Arc", "Circular", "Path Follow", "Envelope"]
    }

    /// The warp kind with display name `name` (no warp for an unknown name).
    pub fn from_name(name: &str) -> (k: TextWarpKind)
        ensures
            k == warp_named(name@),
    {
        let n = String::from_str(name);
        if n == String::from_str("Arc") {
            TextWarpKind::Arc
        } else if n == String::from_str("Circular") {
            TextWarpKind::Circular
        } else if n == String::from_str("Path Follow") {
            TextWarpKind::PathFollow
        } else if n == String::from_str("Envelope") {
            TextWarpKind::Envelope
        } else {
            TextWarpKind::NoWarp
        }
    }
}

/// Every warp kind is found again from its display name.
pub proof fn lemma_warp_name_round_trip(k: TextWarpKind)
    ensures
        warp_named(warp_name(k)) == k,
{
    reveal_strlit("None");
    reveal_strlit("Arc");
    reveal_strlit("Circular");
    reveal_strlit("Path Follow");
    reveal_strlit("Envelope");
    assert("None"@.len() == 4 && "Arc"@.len() == 3 && "Circular"@.len() == 8);
    assert("Path Follow"@.len() == 11 && "Envelope"@.len() == 8);
    assert("Envelope"@ != "Circular"@) by {
        assert("Envelope"@[0] != "Circular"@[0]);
    }
    match k {
        TextWarpKind::NoWarp => {
            assert("None"@ != "Arc"@);
            assert("None"@ != "Circular"@);
            assert("None"@ != "Path Follow"@);
            assert("None"@ != "Envelope"@);
        },
        TextWarpKind::Circular => {
            assert("Circular"@ != "Arc"@);
        },
        TextWarpKind::PathFollow => {
            assert("Path Follow"@ != "Arc"@);
            assert("Path Follow"@ != "Circular"@);
        },
        TextWarpKind::Envelope => {
            assert("Envelope"@ != "Arc"@);
            assert("Envelope"@ != "Path Follow"@);
        },
        _ => {},
    }
}

/// A position within a block's run-based text: run `run_index`, byte `byte_offset` of its text.
#[derive(Clone, Copy, Debug, Default, PartialEq, Eq, Structural)]
pub struct RunPosition {
    pub run_index: usize,
    pub byte_offset: usize,
}

/// Selection within one text block: `anchor` is where it started, `cursor` where it is now.
/// Equal positions mean a bare caret.
#[derive(Clone, Copy, Debug, Default)]
pub struct TextSelection {
    pub anchor: RunPosition,
    pub cursor: RunPosition,
}

impl TextSelection {
    /// Whether there is an active selection (anchor != cursor).
    pub fn has_selection(&self) -> (r: bool)
        ensures
            r == (self.anchor != self.cursor),
    {
        self.anchor != self.cursor
    }

    /// Collapse the selection to the cursor position (deselect).
    pub fn collapse_to_cursor(&mut self)
        ensures
            final(self).anchor == old(self).cursor,
            final(self).cursor == old(self).cursor,
    {
        self.anchor = self.cursor;
    }
}

/// After collapsing to the cursor there is no selection, and the cursor has not moved.
pub proof fn lemma_collapse_clears_selection(s0: TextSelection, s1: TextSelection)
    requires
        s1.anchor == s0.cursor,
        s1.cursor == s0.cursor,
    ensures
        !(s1.anchor != s1.cursor),
        s1.cursor == s0.cursor,
{
}

/// Result channel `c` of compositing source pixel `s` over destination pixel `d`
/// (straight alpha, integer arithmetic).
pub open spec fn composite_channel(s: Seq<u8>, d: Seq<u8>, c: int) -> u8 {
    let sa = s[3] as int;
    let da = d[3] as int;
    let inv = 255 - sa;
    let out_a = sa + (da * inv) / 255;
    if sa == 0 {
        d[c]
    } else if sa == 255 {
        s[c]
    } else if c == 3 {
        if out_a > 255 { 255 } else { out_a as u8 }
    } else {
        let v = (s[c] as int * sa + (d[c] as int * da * inv) / 255) / out_a;
        if v > 255 { 255 } else { v as u8 }
    }
}

/// Blend one colour channel: `(sc*sa + dc*da*(255-sa)/255) / out_a`, capped at 255.
fn blend_channel(sc: u32, dc: u32, sa: u32, da: u32) -> (v: u8)
    requires
        sc <= 255, dc <= 255, 0 < sa < 255, da <= 255,
    ensures
        ({
            let inv = 255 - sa;
            let out_a = sa + (da * inv) / 255;
            let q = (sc * sa + (dc * da * inv) / 255) / out_a;
            v == if q > 255 { 255 } else { q as u8 }
        }),
{
    let inv = 255 - sa;
    proof {
        assert(da * inv <= 255 * 255) by (nonlinear_arith)
            requires da <= 255, inv <= 255;
        assert(dc * da <= 255 * 255) by (nonlinear_arith)
            requires dc <= 255, da <= 255;
        assert(dc * da * inv <= 255 * 255 * 255) by (nonlinear_arith)
            requires dc <= 255, da <= 255, inv <= 255;
        assert(sc * sa <= 255 * 255) by (nonlinear_arith)
            requires sc <= 255, sa <= 255;
    }
    let out_a = sa + (da * inv) / 255;
    let q = (sc * sa + dc * da * inv / 255) / out_a;
    if q > 255 { 255 } else { q as u8 }
}

/// Composite the first `pixel_count` RGBA pixels of `src` over those of `dst`; bytes of
/// `dst` after them are left alone.
pub fn composite_over(src: &[u8], dst: &mut [u8], pixel_count: usize)
    requires
        pixel_count as int * 4 <= src@.len(),
        pixel_count as int * 4 <= old(dst)@.len(),
    ensures
        final(dst)@.len() == old(dst)@.len(),
        forall|i: int, c: int| 0 <= i < pixel_count && 0 <= c < 4 ==> #[trigger] final(dst)@[i * 4 + c]
            == composite_channel(src@.subrange(i * 4, i * 4 + 4), old(dst)@.subrange(i * 4, i * 4 + 4), c),
        forall|j: int| pixel_count * 4 <= j < old(dst)@.len() ==> #[trigger] final(dst)@[j] == old(dst)@[j],
{
    let sl = src.len();
    let mut i: usize = 0;
    while i < pixel_count
        invariant
            sl == src@.len(),
            pixel_count as int * 4 <= src@.len(),
            pixel_count as int * 4 <= old(dst)@.len(),
            dst@.len() == old(dst)@.len(),
            i <= pixel_count,
            forall|k: int, c: int| 0 <= k < i && 0 <= c < 4 ==> #[trigger] dst@[k * 4 + c]
                == composite_channel(src@.subrange(k * 4, k * 4 + 4), old(dst)@.subrange(k * 4, k * 4 + 4), c),
            forall|j: int| i * 4 <= j < old(dst)@.len() ==> #[trigger] dst@[j] == old(dst)@[j],
        decreases pixel_count - i,
    {
        let si = i * 4;
        let ghost s = src@.subrange(si as int, si + 4);
        let ghost d = old(dst)@.subrange(si as int, si + 4);
        let ghost before = dst@;
        let sa = src[si + 3] as u32;
        if sa == 0 {
        } else if sa == 255 {
            dst[si] = src[si];
            dst[si + 1] = src[si + 1];
            dst[si + 2] = src[si + 2];
            dst[si + 3] = src[si + 3];
        } else {
            let da = dst[si + 3] as u32;
            let inv_sa = 255 - sa;
            proof {
                assert(da * inv_sa <= 255 * 255) by (nonlinear_arith)
                    requires da <= 255, inv_sa <= 255;
            }
            let out_a = sa + (da * inv_sa) / 255;
            let v0 = blend_channel(src[si] as u32, dst[si] as u32, sa, da);
            let v1 = blend_channel(src[si + 1] as u32, dst[si + 1] as u32, sa, da);
            let v2 = blend_channel(src[si + 2] as u32, dst[si + 2] as u32, sa, da);
            dst[si] = v0;
            dst[si + 1] = v1;
            dst[si + 2] = v2;
            dst[si + 3] = if out_a > 255 { 255 } else { out_a as u8 };
        }
        proof {
            assert forall|k: int, c: int| 0 <= k < i + 1 && 0 <= c < 4 implies #[trigger] dst@[k * 4 + c]
                == composite_channel(src@.subrange(k * 4, k * 4 + 4), old(dst)@.subrange(k * 4, k * 4 + 4), c) by {
                if k < i {
                    assert(dst@[k * 4 + c] == before[k * 4 + c]);
                }
            }
        }
        i += 1;
    }
}


/// Pixel `(x, y)` of a row-major RGBA buffer of width `w` has non-zero alpha.
pub open spec fn opaque_at(data: Seq<u8>, w: int, x: int, y: int) -> bool {
    data[pix_idx(w, x, y, 3)] > 0
}

/// Some pixel of the `w` by `h` buffer has non-zero alpha.
pub open spec fn any_opaque(data: Seq<u8>, w: int, h: int) -> bool {
    exists|x: int, y: int| 0 <= x < w && 0 <= y < h && #[trigger] opaque_at(data, w, x, y)
}

/// `(x0, y0, tw, th)` is the smallest rectangle holding every pixel of non-zero alpha.
pub open spec fn is_tight_box(data: Seq<u8>, w: int, h: int, x0: int, y0: int, tw: int, th: int) -> bool {
    &&& 0 <= x0 && 0 <= y0 && tw >= 1 && th >= 1 && x0 + tw <= w && y0 + th <= h
    &&& forall|x: int, y: int| 0 <= x < w && 0 <= y < h && #[trigger] opaque_at(data, w, x, y)
        ==> x0 <= x < x0 + tw && y0 <= y < y0 + th
    &&& exists|y: int| 0 <= y < h && #[trigger] opaque_at(data, w, x0, y)
    &&& exists|y: int| 0 <= y < h && #[trigger] opaque_at(data, w, x0 + tw - 1, y)
    &&& exists|x: int| 0 <= x < w && #[trigger] opaque_at(data, w, x, y0)
    &&& exists|x: int| 0 <= x < w && #[trigger] opaque_at(data, w, x, y0 + th - 1)
}

/// `out` is the `tw` by `th` region of `data` (width `w`) starting at `(x0, y0)`.
pub open spec fn is_crop(out: Seq<u8>, data: Seq<u8>, w: int, x0: int, y0: int, tw: int, th: int) -> bool {
    &&& out.len() == tw * th * 4
    &&& forall|x: int, y: int, c: int| 0 <= x < tw && 0 <= y < th && 0 <= c < 4
        ==> #[trigger] out[pix_idx(tw, x, y, c)] == data[pix_idx(w, x0 + x, y0 + y, c)]
}

/// Bounding box of the non-transparent pixels, if there is one.
fn opaque_bounds(data: &[u8], w: u32, h: u32) -> (r: Option<(usize, usize, usize, usize)>)
    requires
        w as int * h as int * 4 <= data@.len(),
    ensures
        r is None <==> !any_opaque(data@, w as int, h as int),
        r matches Some((x0, y0, x1, y1)) ==> x0 <= x1 && y0 <= y1
            && is_tight_box(data@, w as int, h as int, x0 as int, y0 as int, x1 - x0 + 1, y1 - y0 + 1),
{
    let wu = w as usize;
    let hu = h as usize;
    let dl = data.len();
    let ghost wi = w as int;
    let ghost hi = h as int;
    let mut found = false;
    let mut min_x: usize = 0;
    let mut min_y: usize = 0;
    let mut max_x: usize = 0;
    let mut max_y: usize = 0;
    let ghost mut ax: int = 0;
    let ghost mut ay: int = 0;
    let ghost mut bx: int = 0;
    let ghost mut by_: int = 0;
    let ghost mut cx: int = 0;
    let ghost mut cy: int = 0;
    let ghost mut ex: int = 0;
    let ghost mut ey: int = 0;
    let mut y: usize = 0;
    while y < hu
        invariant
            wu == w, hu == h, wi == w as int, hi == h as int, dl == data@.len(),
            wi * hi * 4 <= data@.len(),
            y <= hu,
            !found ==> forall|xx: int, yy: int| 0 <= xx < wi && 0 <= yy < y ==> !#[trigger] opaque_at(data@, wi, xx, yy),
            found ==> {
                &&& min_x <= max_x < wu && min_y <= max_y < y
                &&& forall|xx: int, yy: int| 0 <= xx < wi && 0 <= yy < y && #[trigger] opaque_at(data@, wi, xx, yy)
                    ==> min_x <= xx <= max_x && min_y <= yy <= max_y
                &&& 0 <= ay < hi && ax == min_x && opaque_at(data@, wi, ax, ay)
                &&& 0 <= by_ < hi && bx == max_x && opaque_at(data@, wi, bx, by_)
                &&& 0 <= cx < wi && cy == min_y && opaque_at(data@, wi, cx, cy)
                &&& 0 <= ex < wi && ey == max_y && opaque_at(data@, wi, ex, ey)
            },
        decreases hu - y,
    {
        let mut x: usize = 0;
        while x < wu
            invariant
                wu == w, hu == h, wi == w as int, hi == h as int, dl == data@.len(),
                wi * hi * 4 <= data@.len(),
                y < hu,
                x <= wu,
                !found ==> forall|xx: int, yy: int| 0 <= xx < wi && 0 <= yy && (yy < y || (yy == y && xx < x))
                    ==> !#[trigger] opaque_at(data@, wi, xx, yy),
                found ==> {
                    &&& min_x <= max_x < wu && min_y <= max_y <= y
                    &&& forall|xx: int, yy: int| 0 <= xx < wi && 0 <= yy && (yy < y || (yy == y && xx < x))
                        && #[trigger] opaque_at(data@, wi, xx, yy)
                        ==> min_x <= xx <= max_x && min_y <= yy <= max_y
                    &&& 0 <= ay < hi && ax == min_x && opaque_at(data@, wi, ax, ay)
                    &&& 0 <= by_ < hi && bx == max_x && opaque_at(data@, wi, bx, by_)
                    &&& 0 <= cx < wi && cy == min_y && opaque_at(data@, wi, cx, cy)
                    &&& 0 <= ex < wi && ey == max_y && opaque_at(data@, wi, ex, ey)
                },
            decreases wu - x,
        {
            proof {
                lemma_pix_idx_bounds(wi, hi, x as int, y as int, 3);
                assert(y * wu <= y * wu + x) by (nonlinear_arith)
                    requires x >= 0, y >= 0, wu >= 0;
            }
            if data[(y * wu + x) * 4 + 3] > 0 {
                if !found {
                    found = true;
                    min_x = x;
                    max_x = x;
                    min_y = y;
                    max_y = y;
                    proof {
                        ax = x as int; ay = y as int;
                        bx = x as int; by_ = y as int;
                        cx = x as int; cy = y as int;
                        ex = x as int; ey = y as int;
                    }
                } else {
                    if x < min_x {
                        min_x = x;
                        proof { ax = x as int; ay = y as int; }
                    }
                    if x > max_x {
                        max_x = x;
                        proof { bx = x as int; by_ = y as int; }
                    }
                    if y < min_y {
                        min_y = y;
                        proof { cx = x as int; cy = y as int; }
                    }
                    if y > max_y {
                        max_y = y;
                        proof { ex = x as int; ey = y as int; }
                    }
                }
            }
            x += 1;
        }
        y += 1;
    }
    if !found {
        return None;
    }
    proof {
        let tw = max_x - min_x + 1;
        let th = max_y - min_y + 1;
        assert(opaque_at(data@, wi, min_x as int, ay));
        assert(opaque_at(data@, wi, min_x + tw - 1, by_));
        assert(opaque_at(data@, wi, cx, min_y as int));
        assert(opaque_at(data@, wi, ex, min_y + th - 1));
    }
    Some((min_x, min_y, max_x, max_y))
}

/// Copy the `tw` by `th` region at `(x0, y0)` out of a row-major RGBA buffer of width `w`.
fn crop_rgba(data: &[u8], w: usize, h: usize, x0: usize, y0: usize, tw: usize, th: usize) -> (out: Vec<u8>)
    requires
        w as int * h as int * 4 <= data@.len(),
        tw >= 1, th >= 1, x0 + tw <= w, y0 + th <= h,
    ensures
        is_crop(out@, data@, w as int, x0 as int, y0 as int, tw as int, th as int),
{
    let ghost twi = tw as int;
    let ghost f = |x: int, y: int, c: int| data@[pix_idx(w as int, x0 + x, y0 + y, c)];
    let dl = data.len();
    let mut out: Vec<u8> = Vec::new();
    let mut y: usize = 0;
    while y < th
        invariant
            w as int * h as int * 4 <= data@.len(),
            tw >= 1, th >= 1, x0 + tw <= w, y0 + th <= h, twi == tw as int, dl == data@.len(),
            f == (|x: int, y: int, c: int| data@[pix_idx(w as int, x0 + x, y0 + y, c)]),
            y <= th,
            out@.len() == (y * twi) * 4,
            prefix_matches(out@, twi, y * twi, f),
        decreases th - y,
    {
        let mut x: usize = 0;
        while x < tw
            invariant
                w as int * h as int * 4 <= data@.len(),
                tw >= 1, th >= 1, x0 + tw <= w, y0 + th <= h, twi == tw as int, dl == data@.len(), dl == data@.len(),
                f == (|x: int, y: int, c: int| data@[pix_idx(w as int, x0 + x, y0 + y, c)]),
                y < th,
                x <= tw,
                out@.len() == (y * twi + x) * 4,
                prefix_matches(out@, twi, y * twi + x, f),
            decreases tw - x,
        {
            let sx = x0 + x;
            let sy = y0 + y;
            proof {
                lemma_pix_idx_bounds(w as int, h as int, sx as int, sy as int, 0);
                assert(sy * w <= sy * w + sx) by (nonlinear_arith)
                    requires sx >= 0, sy >= 0, w >= 0;
                assert((sy * w + sx) * 4 + 4 <= dl);
            }
            let si = (sy * w + sx) * 4;
            push_pixel(&mut out, data[si], data[si + 1], data[si + 2], data[si + 3], Ghost(twi), Ghost(x as int), Ghost(y as int), Ghost(f));
            x += 1;
        }
        proof {
            lemma_row_step(twi, y as int);
        }
        y += 1;
    }
    proof {
        lemma_prefix_complete(out@, twi, th as int, f);
        assert(out@.len() == twi * (th as int) * 4);
    }
    out
}

/// Find the tight box of the non-transparent pixels of a `w` by `h` RGBA buffer.
/// Returns `(x, y, w, h, cropped_pixels)`, or `(0, 0, 0, 0, [])` when every pixel is transparent.
pub fn find_tight_bounds_rgba(data: &[u8], w: u32, h: u32) -> (r: (u32, u32, u32, u32, Vec<u8>))
    requires
        w as int * h as int * 4 <= data@.len(),
    ensures
        !any_opaque(data@, w as int, h as int) ==> r.0 == 0 && r.1 == 0 && r.2 == 0 && r.3 == 0 && r.4@.len() == 0,
        any_opaque(data@, w as int, h as int) ==> {
            &&& is_tight_box(data@, w as int, h as int, r.0 as int, r.1 as int, r.2 as int, r.3 as int)
            &&& is_crop(r.4@, data@, w as int, r.0 as int, r.1 as int, r.2 as int, r.3 as int)
        },
{
    match opaque_bounds(data, w, h) {
        None => (0, 0, 0, 0, Vec::new()),
        Some((x0, y0, x1, y1)) => {
            let tw = x1 - x0 + 1;
            let th = y1 - y0 + 1;
            let out = crop_rgba(data, w as usize, h as usize, x0, y0, tw, th);
            (x0 as u32, y0 as u32, tw as u32, th as u32, out)
        },
    }
}

/// Trim a `w` by `h` RGBA buffer to the smallest rectangle holding its non-transparent
/// pixels: `Some((x, y, w, h, trimmed))`, or `None` when every pixel is transparent.
pub fn trim_to_content(data: &[u8], w: u32, h: u32) -> (r: Option<(u32, u32, u32, u32, Vec<u8>)>)
    requires
        w as int * h as int * 4 <= data@.len(),
    ensures
        r is None <==> !any_opaque(data@, w as int, h as int),
        r matches Some(t) ==> {
            &&& is_tight_box(data@, w as int, h as int, t.0 as int, t.1 as int, t.2 as int, t.3 as int)
            &&& is_crop(t.4@, data@, w as int, t.0 as int, t.1 as int, t.2 as int, t.3 as int)
        },
{
    match opaque_bounds(data, w, h) {
        None => None,
        Some((x0, y0, x1, y1)) => {
            let tw = x1 - x0 + 1;
            let th = y1 - y0 + 1;
            let out = crop_rgba(data, w as usize, h as usize, x0, y0, tw, th);
            Some((x0 as u32, y0 as u32, tw as u32, th as u32, out))
        },
    }
}

/// Channel `c` of target pixel `(tx, ty)` after blitting a `bw` by `bh` buffer at offset
/// `(ox, oy)`, clipped to a `cw` by `ch` canvas: buffer pixels with zero alpha are skipped,
/// the others are composited over the target pixel (see `composite_channel`).
pub open spec fn blit_expected(
    old_target: RgbaImage, buf: Seq<u8>, bw: int, bh: int, ox: int, oy: int, cw: int, ch: int,
    tx: int, ty: int, c: int,
) -> u8 {
    let px = tx - ox;
    let py = ty - oy;
    if tx < cw && ty < ch && 0 <= px < bw && 0 <= py < bh && buf[pix_idx(bw, px, py, 3)] != 0 {
        composite_channel(
            buf.subrange(pix_idx(bw, px, py, 0), pix_idx(bw, px, py, 0) + 4),
            old_target.data@.subrange(pix_idx(old_target.width as int, tx, ty, 0), pix_idx(old_target.width as int, tx, ty, 0) + 4),
            c,
        )
    } else {
        old_target.at(tx, ty, c)
    }
}

/// The four channels of source pixel `s[si..si+4]` composited over `d[di..di+4]`.
fn composite_pixel(s: &[u8], si: usize, d: &Vec<u8>, di: usize) -> (r: (u8, u8, u8, u8))
    requires
        si + 4 <= s@.len(),
        di + 4 <= d@.len(),
        si + 4 <= usize::MAX,
        di + 4 <= usize::MAX,
    ensures
        r.0 == composite_channel(s@.subrange(si as int, si + 4), d@.subrange(di as int, di + 4), 0),
        r.1 == composite_channel(s@.subrange(si as int, si + 4), d@.subrange(di as int, di + 4), 1),
        r.2 == composite_channel(s@.subrange(si as int, si + 4), d@.subrange(di as int, di + 4), 2),
        r.3 == composite_channel(s@.subrange(si as int, si + 4), d@.subrange(di as int, di + 4), 3),
{
    let sa = s[si + 3] as u32;
    if sa == 0 {
        (d[di], d[di + 1], d[di + 2], d[di + 3])
    } else if sa == 255 {
        (s[si], s[si + 1], s[si + 2], s[si + 3])
    } else {
        let da = d[di + 3] as u32;
        let inv_sa = 255 - sa;
        proof {
            assert(da * inv_sa <= 255 * 255) by (nonlinear_arith)
                requires da <= 255, inv_sa <= 255;
        }
        let out_a = sa + (da * inv_sa) / 255;
        let v0 = blend_channel(s[si] as u32, d[di] as u32, sa, da);
        let v1 = blend_channel(s[si + 1] as u32, d[di + 1] as u32, sa, da);
        let v2 = blend_channel(s[si + 2] as u32, d[di + 2] as u32, sa, da);
        (v0, v1, v2, if out_a > 255 { 255 } else { out_a as u8 })
    }
}

/// Composite the non-transparent pixels of a `buf_w` by `buf_h` RGBA buffer over `target`
/// at offset `(off_x, off_y)`, skipping pixels that fall outside the `canvas_w` by
/// `canvas_h` canvas.
pub fn blit_rgba_buffer(
    target: &mut RgbaImage,
    buf: &[u8],
    buf_w: u32,
    buf_h: u32,
    off_x: i32,
    off_y: i32,
    canvas_w: u32,
    canvas_h: u32,
)
    requires
        old(target).wf(),
        canvas_w <= old(target).width,
        canvas_h <= old(target).height,
        buf_w as int * buf_h as int * 4 <= buf@.len(),
    ensures
        final(target).wf(),
        final(target).width == old(target).width,
        final(target).height == old(target).height,
        forall|x: int, y: int, c: int| 0 <= x < old(target).width && 0 <= y < old(target).height && 0 <= c < 4
            ==> #[trigger] final(target).at(x, y, c) == blit_expected(*old(target), buf@, buf_w as int, buf_h as int,
                off_x as int, off_y as int, canvas_w as int, canvas_h as int, x, y, c),
{
    let ghost t0 = *target;
    let ghost bwi = buf_w as int;
    let ghost twi = target.width as int;
    let ghost thi = target.height as int;
    let tw = target.width as usize;
    let bwu = buf_w as usize;
    let bl = buf.len();
    let tl = target.data.len();
    let mut py: u32 = 0;
    while py < buf_h
        invariant
            t0.wf(), target.wf(), target.width == t0.width, target.height == t0.height,
            canvas_w <= t0.width, canvas_h <= t0.height,
            bwi * (buf_h as int) * 4 <= buf@.len(), bl == buf@.len(), tl == target.data@.len(),
            bwi == buf_w as int, twi == t0.width as int, thi == t0.height as int, tw == t0.width, bwu == buf_w,
            py <= buf_h,
            forall|x: int, y: int, c: int| 0 <= x < twi && 0 <= y < thi && 0 <= c < 4 ==> #[trigger] target.at(x, y, c) == (
                if (y - off_y) * bwi + (x - off_x) < py * bwi && 0 <= x - off_x < bwi && 0 <= y - off_y {
                    blit_expected(t0, buf@, bwi, buf_h as int, off_x as int, off_y as int, canvas_w as int, canvas_h as int, x, y, c)
                } else {
                    t0.at(x, y, c)
                }),
        decreases buf_h - py,
    {
        let cy = off_y as i64 + py as i64;
        let mut px: u32 = 0;
        while px < buf_w
            invariant
                t0.wf(), target.wf(), target.width == t0.width, target.height == t0.height,
                canvas_w <= t0.width, canvas_h <= t0.height,
                bwi * (buf_h as int) * 4 <= buf@.len(), bl == buf@.len(), tl == target.data@.len(),
                bwi == buf_w as int, twi == t0.width as int, thi == t0.height as int, tw == t0.width, bwu == buf_w,
                py < buf_h,
                cy == off_y + py,
                px <= buf_w,
                forall|x: int, y: int, c: int| 0 <= x < twi && 0 <= y < thi && 0 <= c < 4 ==> #[trigger] target.at(x, y, c) == (
                    if (y - off_y) * bwi + (x - off_x) < py * bwi + px && 0 <= x - off_x < bwi && 0 <= y - off_y {
                        blit_expected(t0, buf@, bwi, buf_h as int, off_x as int, off_y as int, canvas_w as int, canvas_h as int, x, y, c)
                    } else {
                        t0.at(x, y, c)
                    }),
            decreases buf_w - px,
        {
            let cx = off_x as i64 + px as i64;
            let ghost done = py * bwi + px;
            proof {
                lemma_pix_idx_bounds(bwi, buf_h as int, px as int, py as int, 0);
                assert(py as int * bwu <= py as int * bwu + px) by (nonlinear_arith)
                    requires px >= 0, py >= 0, bwu >= 0;
                assert((py as int * bwu + px) * 4 + 4 <= bl);
            }
            let src_idx = (py as usize * bwu + px as usize) * 4;
            if cy >= 0 && cy < canvas_h as i64 && cx >= 0 && cx < canvas_w as i64 && buf[src_idx + 3] != 0 {
                let cxu = cx as usize;
                let cyu = cy as usize;
                proof {
                    lemma_pix_idx_bounds(twi, thi, cxu as int, cyu as int, 0);
                    assert(cyu * tw <= cyu * tw + cxu) by (nonlinear_arith)
                        requires cxu >= 0, cyu >= 0, tw >= 0;
                    assert((cyu * tw + cxu) * 4 + 4 <= tl);
                }
                let di = (cyu * tw + cxu) * 4;
                let ghost before = *target;
                let ghost bd = target.data@;
                let ghost sp = buf@.subrange(src_idx as int, src_idx + 4);
                let ghost dp = bd.subrange(di as int, di + 4);
                proof {
                    assert forall|c: int| 0 <= c < 4 implies #[trigger] dp[c] == t0.at(cxu as int, cyu as int, c) by {
                        assert(dp[c] == target.at(cxu as int, cyu as int, c));
                        lemma_linear_pos_unique(bwi, cxu - off_x, cyu - off_y, px as int, py as int);
                    }
                    assert(dp =~= t0.data@.subrange(pix_idx(twi, cxu as int, cyu as int, 0), pix_idx(twi, cxu as int, cyu as int, 0) + 4));
                    assert(sp =~= buf@.subrange(pix_idx(bwi, px as int, py as int, 0), pix_idx(bwi, px as int, py as int, 0) + 4));
                }
                let (v0, v1, v2, v3) = composite_pixel(buf, src_idx, &target.data, di);
                target.data.set(di, v0);
                target.data.set(di + 1, v1);
                target.data.set(di + 2, v2);
                target.data.set(di + 3, v3);
                proof {
                    assert(target.data@ == bd.update(di as int, composite_channel(sp, dp, 0)).update(di + 1, composite_channel(sp, dp, 1))
                        .update(di + 2, composite_channel(sp, dp, 2)).update(di + 3, composite_channel(sp, dp, 3)));
                    assert(target.width == before.width);
                }
                proof {
                    assert forall|x: int, y: int, c: int| 0 <= x < twi && 0 <= y < thi && 0 <= c < 4 implies
                        #[trigger] target.at(x, y, c) == (
                        if (y - off_y) * bwi + (x - off_x) < py * bwi + px + 1 && 0 <= x - off_x < bwi && 0 <= y - off_y {
                            blit_expected(t0, buf@, bwi, buf_h as int, off_x as int, off_y as int, canvas_w as int, canvas_h as int, x, y, c)
                        } else {
                            t0.at(x, y, c)
                        }) by {
                        lemma_linear_pos_unique(twi, x, y, cxu as int, cyu as int);
                        if x == cxu && y == cyu {
                            assert(target.at(x, y, c) == composite_channel(sp, dp, c));
                        } else {
                            lemma_pix_idx_bounds(twi, thi, x, y, c);
                            assert(y * twi + x != cyu * twi + cxu);
                            assert(pix_idx(twi, x, y, c) != di);
                            assert(pix_idx(twi, x, y, c) != di + 1);
                            assert(pix_idx(twi, x, y, c) != di + 2);
                            assert(pix_idx(twi, x, y, c) != di + 3);
                            assert(target.data@[pix_idx(twi, x, y, c)] == bd[pix_idx(twi, x, y, c)]);
                            assert(target.at(x, y, c) == before.at(x, y, c));
                            if 0 <= x - off_x < bwi && 0 <= y - off_y {
                                lemma_linear_pos_unique(bwi, x - off_x, y - off_y, px as int, py as int);
                            }
                        }
                    }
                }
            } else {
                proof {
                    assert forall|x: int, y: int, c: int| 0 <= x < twi && 0 <= y < thi && 0 <= c < 4 implies
                        #[trigger] target.at(x, y, c) == (
                        if (y - off_y) * bwi + (x - off_x) < py * bwi + px + 1 && 0 <= x - off_x < bwi && 0 <= y - off_y {
                            blit_expected(t0, buf@, bwi, buf_h as int, off_x as int, off_y as int, canvas_w as int, canvas_h as int, x, y, c)
                        } else {
                            t0.at(x, y, c)
                        }) by {
                        if 0 <= x - off_x < bwi && 0 <= y - off_y {
                            lemma_linear_pos_unique(bwi, x - off_x, y - off_y, px as int, py as int);
                        }
                    }
                }
            }
            px += 1;
        }
        proof {
            lemma_row_step(bwi, py as int);
        }
        py += 1;
    }
    proof {
        assert forall|x: int, y: int, c: int| 0 <= x < twi && 0 <= y < thi && 0 <= c < 4 implies
            #[trigger] target.at(x, y, c) == blit_expected(t0, buf@, bwi, buf_h as int, off_x as int, off_y as int,
                canvas_w as int, canvas_h as int, x, y, c) by {
            if 0 <= x - off_x < bwi && 0 <= y - off_y < buf_h {
                assert((y - off_y) * bwi + (x - off_x) < buf_h * bwi) by (nonlinear_arith)
                    requires 0 <= x - off_x < bwi, 0 <= y - off_y < buf_h;
            }
        }
    }
}
} // verus!
